//! Bookkeeping of the client's connection pool: a FIFO of idle
//! connections and the count of connections open, idle or checked out.
//! The pool itself (its lock, connecting, the sockets) lives with the
//! client; each decision it takes is made here.
use vstd::prelude::*;
use std::collections::VecDeque;
use core::time::Duration;

verus! {

/// Configuration of the pool.
#[derive(Debug, Clone)]
pub struct PoolConfig {
    /// Server address, e.g. `127.0.0.1:6379`.
    pub addr: String,
    /// Most idle connections kept.
    pub max_idle: usize,
    /// Most connections open, idle or checked out.
    pub max_total: usize,
    /// Optional TCP read timeout.
    pub read_timeout: Option<Duration>,
    /// Optional TCP write timeout.
    pub write_timeout: Option<Duration>,
    /// Optional TCP connect timeout.
    pub connect_timeout: Option<Duration>,
}

/// What `acquire` does next.
pub enum Acquire<C> {
    /// Reuse this idle connection.
    Idle(C),
    /// A slot is reserved: open a new connection, and release the slot if
    /// that fails.
    Connect,
    /// The pool is at `max_total`: fail at once.
    Exhausted,
}

/// The pool's state under its lock.
pub struct PoolState<C> {
    idle: VecDeque<C>,
    total: usize,
}

impl<C> PoolState<C> {
    /// The idle connections, oldest first.
    pub closed spec fn idle(&self) -> Seq<C> {
        self.idle@
    }

    /// Connections open, idle or checked out.
    pub closed spec fn total(&self) -> nat {
        self.total as nat
    }

    /// An empty pool.
    pub fn new(max_idle: usize) -> (r: PoolState<C>)
        ensures
            r.idle().len() == 0,
            r.total() == 0,
    {
        PoolState { idle: VecDeque::with_capacity(max_idle), total: 0 }
    }

    /// The number of idle connections.
    pub fn idle_len(&self) -> (r: usize)
        ensures
            r == self.idle().len(),
    {
        self.idle.len()
    }

    /// The number of open connections.
    pub fn total_count(&self) -> (r: usize)
        ensures
            r == self.total(),
    {
        self.total
    }

    /// Takes the oldest idle connection.
    pub fn pop_idle(&mut self) -> (r: Option<C>)
        ensures
            old(self).idle().len() == 0 ==> r is None && final(self).idle() == old(self).idle(),
            old(self).idle().len() > 0 ==> r == Some(old(self).idle()[0]) && final(self).idle() == old(self).idle().drop_first(),
            final(self).total() == old(self).total(),
    {
        let r = self.idle.pop_front();
        proof {
            if old(self).idle().len() > 0 {
                assert(self.idle@ =~= old(self).idle().drop_first());
            }
        }
        r
    }

    /// Reserves a slot for a new connection, unless `max_total` are open.
    pub fn try_reserve(&mut self, max_total: usize) -> (r: bool)
        ensures
            r == (old(self).total() < max_total),
            final(self).total() == (if r { old(self).total() + 1 } else { old(self).total() }),
            final(self).idle() == old(self).idle(),
    {
        if self.total >= max_total {
            return false;
        }
        self.total = self.total + 1;
        true
    }

    /// Gives back a slot whose connection is gone.
    pub fn release_slot(&mut self)
        ensures
            final(self).total() == (if old(self).total() == 0 { 0 } else { old(self).total() - 1 }),
            final(self).idle() == old(self).idle(),
    {
        self.total = self.total.saturating_sub(1);
    }

    /// Takes back a healthy connection: kept idle while fewer than
    /// `max_idle` are, else closed and its slot released.
    pub fn return_connection(&mut self, conn: C, max_idle: usize)
        ensures
            old(self).idle().len() < max_idle ==> final(self).idle() == old(self).idle().push(conn) && final(self).total() == old(self).total(),
            old(self).idle().len() >= max_idle ==> final(self).idle() == old(self).idle() && final(self).total() == (
            if old(self).total() == 0 {
                0
            } else {
                old(self).total() - 1
            }),
    {
        if self.idle.len() < max_idle {
            self.idle.push_back(conn);
        } else {
            self.total = self.total.saturating_sub(1);
        }
    }

    /// The first step of `acquire`: reuse the oldest idle connection, else
    /// reserve a slot to connect, else report exhaustion.
    pub fn begin_acquire(&mut self, max_total: usize) -> (r: Acquire<C>)
        ensures
            old(self).idle().len() > 0 ==> r == Acquire::Idle(old(self).idle()[0]) && final(self).idle() == old(self).idle().drop_first() && final(self).total() == old(self).total(),
            old(self).idle().len() == 0 && old(self).total() < max_total ==> r is Connect && final(self).total()
                == old(self).total() + 1 && final(self).idle() == old(self).idle(),
            old(self).idle().len() == 0 && old(self).total() >= max_total ==> r is Exhausted && final(self).idle() == old(self).idle() && final(self).total() == old(self).total(),
    {
        if let Some(conn) = self.pop_idle() {
            return Acquire::Idle(conn);
        }
        if !self.try_reserve(max_total) {
            return Acquire::Exhausted;
        }
        Acquire::Connect
    }

    /// A checked-out connection comes back: a healthy one is returned, one
    /// that saw an I/O or protocol error is closed and its slot released.
    pub fn finish_release(&mut self, conn: C, valid: bool, max_idle: usize)
        ensures
            valid && old(self).idle().len() < max_idle ==> final(self).idle() == old(self).idle().push(conn)
                && final(self).total() == old(self).total(),
            !(valid && old(self).idle().len() < max_idle) ==> final(self).idle() == old(self).idle() && final(self).total() == (if old(self).total() == 0 {
                0
            } else {
                old(self).total() - 1
            }),
    {
        if valid {
            self.return_connection(conn, max_idle);
        } else {
            self.release_slot();
        }
    }
}

} // verus!
