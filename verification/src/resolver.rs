//! Fetching a block from peers, as the decisions between the steps that
//! the caller performs.

use crate::hash::blake2b256;
use crate::hash::block_matches;
use crate::urn::peer_to_url;
use crate::urn::peer_url;
use crate::urn::try_ref_to_id;
use vstd::prelude::*;

verus! {

/// How many times the peer index is asked before a block is given up.
pub const MAX_PEER_RETRIES: usize = 3;

/// A peer that may hold a block: an IPv4 address and a port.
#[derive(Clone, Copy, Debug)]
pub struct Peer {
    pub ip: [u8; 4],
    pub port: u16,
}

/// What a fetch is waiting for.
#[derive(Clone, Copy, Debug, PartialEq, Eq, Structural)]
pub enum Phase {
    /// The peer index was asked and has not answered yet.
    AwaitPeers,
    /// A peer was asked for the block and has not answered yet.
    AwaitBody,
    /// The fetch has ended.
    Finished,
}

/// What the world did for a fetch since its last action.
#[derive(Debug)]
pub enum FetchEvent {
    /// The peer index named these candidates, in the order it gave them.
    Peers(Vec<Peer>),
    /// The peer that was asked sent these bytes.
    Body(Vec<u8>),
    /// The peer that was asked could not be reached or did not answer.
    Unreachable,
}

/// What a fetch wants done next.
#[derive(Debug)]
pub enum FetchAction {
    /// Ask the peer index who holds this key.
    Lookup([u8; 20]),
    /// Ask for the block at this address.
    Get(String),
    /// The block was fetched: these are its bytes.
    Done(Vec<u8>),
    /// The block could not be fetched.
    NotFound,
}

/// One fetch of a block from peers: the decisions between asking the peer
/// index, asking peers, and checking what they send.
#[derive(Debug)]
pub struct Fetch {
    /// The block that is wanted.
    pub reference: [u8; 32],
    /// Whether a body must hash to the reference to be accepted.
    pub check: bool,
    /// How many times the peer index was asked so far.
    pub round: usize,
    /// The candidates of this round.
    pub queue: Vec<Peer>,
    /// How many of the candidates were asked so far.
    pub next: usize,
    pub phase: Phase,
}

/// Whether a body is accepted for `reference`: unchecked, or hashing to it.
pub open spec fn accepts(reference: Seq<u8>, check: bool, body: Seq<u8>) -> bool {
    !check || blake2b256(body) == reference
}

impl Fetch {
    /// A fetch never asks the index more than `MAX_PEER_RETRIES` times nor
    /// more peers than it was told of.
    pub open spec fn wf(&self) -> bool {
        &&& self.round <= MAX_PEER_RETRIES
        &&& self.next <= self.queue@.len()
        &&& self.phase != Phase::Finished ==> 1 <= self.round
    }

    /// Whether `post` and `action` are what follows once the candidates are
    /// `queue`, of which `next` were asked, in round `round`: the next
    /// candidate is asked; with none left the index is asked again; after
    /// the last round the fetch fails.
    pub open spec fn moved_on(
        pre: Fetch,
        queue: Seq<Peer>,
        next: int,
        post: Fetch,
        action: FetchAction,
    ) -> bool {
        &&& post.reference == pre.reference
        &&& post.check == pre.check
        &&& post.queue@ == queue
        &&& if next < queue.len() {
            &&& post.next == next + 1
            &&& post.round == pre.round
            &&& post.phase == Phase::AwaitBody
            &&& action matches FetchAction::Get(url)
            &&& url@ == peer_url(queue[next].ip@, queue[next].port, pre.reference@)
        } else if pre.round < MAX_PEER_RETRIES {
            &&& post.next == next
            &&& post.round == pre.round + 1
            &&& post.phase == Phase::AwaitPeers
            &&& action matches FetchAction::Lookup(id)
            &&& id@ == pre.reference@.subrange(0, 20)
        } else {
            &&& post.next == next
            &&& post.round == pre.round
            &&& post.phase == Phase::Finished
            &&& action is NotFound
        }
    }

    /// Whether `post` is `pre` ended, with nothing else changed.
    pub open spec fn ended(pre: Fetch, post: Fetch) -> bool {
        &&& post.reference == pre.reference
        &&& post.check == pre.check
        &&& post.queue@ == pre.queue@
        &&& post.next == pre.next
        &&& post.round == pre.round
        &&& post.phase == Phase::Finished
    }

    /// Begins a fetch. Without a bootstrapped peer index the block is given
    /// up at once; otherwise the index is asked for the block's key for the
    /// first time.
    pub fn start(reference: [u8; 32], check: bool, bootstrapped: bool) -> (out: (Fetch, FetchAction))
        ensures
            out.0.wf(),
            out.0.reference == reference,
            out.0.check == check,
            out.0.queue@.len() == 0,
            out.0.next == 0,
            bootstrapped ==> {
                &&& out.0.round == 1
                &&& out.0.phase == Phase::AwaitPeers
                &&& out.1 matches FetchAction::Lookup(id)
                &&& id@ == reference@.subrange(0, 20)
            },
            !bootstrapped ==> {
                &&& out.0.round == 0
                &&& out.0.phase == Phase::Finished
                &&& out.1 is NotFound
            },
    {
        if bootstrapped {
            let id = try_ref_to_id(&reference);
            (
                Fetch {
                    reference,
                    check,
                    round: 1,
                    queue: Vec::new(),
                    next: 0,
                    phase: Phase::AwaitPeers,
                },
                FetchAction::Lookup(id),
            )
        } else {
            (
                Fetch {
                    reference,
                    check,
                    round: 0,
                    queue: Vec::new(),
                    next: 0,
                    phase: Phase::Finished,
                },
                FetchAction::NotFound,
            )
        }
    }

    /// Moves on to the next candidate, the next round, or failure.
    fn advance(&mut self) -> (action: FetchAction)
        requires
            old(self).wf(),
            old(self).phase != Phase::Finished,
        ensures
            final(self).wf(),
            Fetch::moved_on(*old(self), old(self).queue@, old(self).next as int, *final(self), action),
    {
        if self.next < self.queue.len() {
            let peer = self.queue[self.next];
            self.next = self.next + 1;
            self.phase = Phase::AwaitBody;
            FetchAction::Get(peer_to_url(peer.ip, peer.port, &self.reference))
        } else if self.round < MAX_PEER_RETRIES {
            self.round = self.round + 1;
            self.phase = Phase::AwaitPeers;
            FetchAction::Lookup(try_ref_to_id(&self.reference))
        } else {
            self.phase = Phase::Finished;
            FetchAction::NotFound
        }
    }

    /// Takes in what happened and decides what to do next.
    ///
    /// Candidates named by the index are asked in order. A body is accepted
    /// if it hashes to the reference, or unchecked if the fetch does not
    /// check; a body that is refused and a peer that cannot be reached both
    /// lead on to the next candidate. When the candidates of a round are
    /// used up the index is asked again, `MAX_PEER_RETRIES` times in all,
    /// and then the block is given up. An event that the fetch was not
    /// waiting for ends it.
    pub fn step(&mut self, event: FetchEvent) -> (action: FetchAction)
        requires
            old(self).wf(),
        ensures
            final(self).wf(),
            match (old(self).phase, event) {
                (Phase::AwaitPeers, FetchEvent::Peers(list)) => Fetch::moved_on(
                    *old(self),
                    list@,
                    0,
                    *final(self),
                    action,
                ),
                (Phase::AwaitBody, FetchEvent::Body(body)) => if accepts(
                    old(self).reference@,
                    old(self).check,
                    body@,
                ) {
                    Fetch::ended(*old(self), *final(self)) && action == FetchAction::Done(body)
                } else {
                    Fetch::moved_on(
                        *old(self),
                        old(self).queue@,
                        old(self).next as int,
                        *final(self),
                        action,
                    )
                },
                (Phase::AwaitBody, FetchEvent::Unreachable) => Fetch::moved_on(
                    *old(self),
                    old(self).queue@,
                    old(self).next as int,
                    *final(self),
                    action,
                ),
                _ => Fetch::ended(*old(self), *final(self)) && action is NotFound,
            },
    {
        match self.phase {
            Phase::AwaitPeers => match event {
                FetchEvent::Peers(list) => {
                    self.queue = list;
                    self.next = 0;
                    self.advance()
                },
                _ => {
                    self.phase = Phase::Finished;
                    FetchAction::NotFound
                },
            },
            Phase::AwaitBody => match event {
                FetchEvent::Body(body) => {
                    if !self.check || block_matches(&self.reference, body.as_slice()) {
                        self.phase = Phase::Finished;
                        FetchAction::Done(body)
                    } else {
                        self.advance()
                    }
                },
                FetchEvent::Unreachable => self.advance(),
                _ => {
                    self.phase = Phase::Finished;
                    FetchAction::NotFound
                },
            },
            Phase::Finished => FetchAction::NotFound,
        }
    }
}

} // verus!
