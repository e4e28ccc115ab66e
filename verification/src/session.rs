//! All that one TCP sender sends until it closes.
use vstd::prelude::*;

use crate::arrival::{Arrived, ArrivedView};
use crate::connection;
use crate::connection::{Connection, ConnectionView, Progress, ProgressView, Want};
use crate::error::ProtocolError;

verus! {

/// One sender's messages as they come in.
pub struct Session {
    connection: Connection,
    arrived: Vec<Arrived>,
}

/// The connection, and what has arrived over it.
#[verifier::ext_equal]
pub struct SessionView {
    pub connection: ConnectionView,
    pub arrived: Seq<ArrivedView>,
}

impl View for Session {
    type V = SessionView;

    closed spec fn view(&self) -> SessionView {
        SessionView { connection: self.connection@, arrived: views(self.arrived@) }
    }
}

/// What each of `messages` says.
pub open spec fn views(messages: Seq<Arrived>) -> Seq<ArrivedView> {
    Seq::new(messages.len(), |i: int| messages[i]@)
}

/// What came of a read.
#[derive(Clone, Copy, Debug, PartialEq, Eq, Structural)]
pub enum Gathering {
    /// More is to be read.
    Reading,
    /// The sender closed, and everything has arrived.
    Finished,
    /// What was sent is refused, and with it the session.
    Refused(ProtocolError),
}

/// What comes of a read in a session, and the session that follows.
pub open spec fn gather(session: SessionView, read: Seq<u8>) -> (SessionView, Gathering) {
    let peer = session.connection.peer;
    let (stage, progress) = connection::advance(peer, session.connection.stage, read);
    let connection = ConnectionView { peer, stage };
    match progress {
        ProgressView::Reading => (SessionView { connection, ..session }, Gathering::Reading),
        ProgressView::Message(message) => (
            SessionView { connection, arrived: session.arrived.push(message) },
            Gathering::Reading,
        ),
        ProgressView::Closed => (SessionView { connection, ..session }, Gathering::Finished),
        ProgressView::Refused(error) => (
            SessionView { connection, ..session },
            Gathering::Refused(error),
        ),
    }
}

impl Session {
    /// A session with a sender at `peer`, of whom nothing has been read.
    pub fn new(peer: &str) -> (r: Self)
        ensures
            r@ == (SessionView {
                connection: ConnectionView { peer: peer@, stage: connection::Stage::Opening },
                arrived: Seq::empty(),
            }),
    {
        let session = Session { connection: Connection::new(peer), arrived: Vec::new() };
        proof {
            assert(views(session.arrived@) =~= Seq::empty());
        }
        session
    }

    /// What is to be read next.
    pub fn wants(&self) -> (r: Want)
        ensures
            r == self@.connection.stage.wants(),
    {
        self.connection.wants()
    }

    /// Go on with what was read.
    pub fn receive(&mut self, read: &[u8]) -> (r: Gathering)
        ensures
            (final(self)@, r) == gather(old(self)@, read@),
    {
        match self.connection.next_message(read) {
            Progress::Reading => Gathering::Reading,
            Progress::Message(message) => {
                self.arrived.push(message);
                proof {
                    assert(views(self.arrived@) =~= views(old(self).arrived@).push(message@));
                }
                Gathering::Reading
            },
            Progress::Closed => Gathering::Finished,
            Progress::Refused(error) => Gathering::Refused(error),
        }
    }

    /// What has arrived, in the order of its arrival.
    pub fn into_arrived(self) -> (r: Vec<Arrived>)
        ensures
            views(r@) == self@.arrived,
    {
        self.arrived
    }
}

} // verus!
