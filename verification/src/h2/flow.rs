//! Flow-control windows.

use vstd::prelude::*;

verus! {

#[derive(Copy, Clone, Debug, PartialEq, Eq, Structural)]
pub enum Error {
    Overflow,
    ZeroIncrement,
    Stalled,
}

/// The number of bytes that may still be sent. It goes below zero when the peer shrinks
/// the initial window.
#[derive(Copy, Clone, Debug, PartialEq, Eq, Structural)]
pub struct Window {
    pub value: i32,
}

pub open spec fn min(a: int, b: int) -> int {
    if a < b {
        a
    } else {
        b
    }
}

pub open spec fn max(a: int, b: int) -> int {
    if a > b {
        a
    } else {
        b
    }
}

impl Window {
    pub const INITIAL: i32 = 65_535;

    pub const MAX: i32 = 0x7fff_ffff;

    /// The bytes that may be taken from the window now.
    pub open spec fn room(self) -> int {
        max(self.value as int, 0)
    }

    pub fn new() -> (r: Self)
        ensures
            r.value == Self::INITIAL,
    {
        Window { value: Self::INITIAL }
    }

    pub fn with(value: i32) -> (r: Self)
        ensures
            r.value == value,
    {
        Window { value }
    }

    pub fn available(self) -> (r: usize)
        ensures
            r == self.room(),
    {
        if self.value < 0 {
            0
        } else {
            self.value as usize
        }
    }

    pub fn is_stalled(self) -> (r: bool)
        ensures
            r == (self.room() == 0),
    {
        self.value <= 0
    }

    pub fn consume(&mut self, n: usize) -> (r: Result<(), Error>)
        ensures
            r == if n <= old(self).room() {
                Ok::<(), Error>(())
            } else {
                Err(Error::Stalled)
            },
            final(self).value == old(self).value - (if r is Ok {
                n as int
            } else {
                0
            }),
    {
        if n > self.available() {
            return Err(Error::Stalled);
        }
        self.value = self.value - n as i32;
        Ok(())
    }

    pub fn increase(&mut self, n: u32) -> (r: Result<(), Error>)
        ensures
            r == if n == 0 {
                Err(Error::ZeroIncrement)
            } else if n > Self::MAX || old(self).value + n > Self::MAX {
                Err(Error::Overflow)
            } else {
                Ok::<(), Error>(())
            },
            final(self).value == old(self).value + (if r is Ok {
                n as int
            } else {
                0
            }),
    {
        if n == 0 {
            return Err(Error::ZeroIncrement);
        }
        if n > 0x7fff_ffff {
            return Err(Error::Overflow);
        }
        let next: i64 = self.value as i64 + n as i64;
        if next > Self::MAX as i64 {
            return Err(Error::Overflow);
        }
        self.value = next as i32;
        Ok(())
    }

    pub fn adjust_initial(&mut self, delta: i32) -> (r: Result<(), Error>)
        ensures
            r == if i32::MIN <= old(self).value + delta <= Self::MAX {
                Ok::<(), Error>(())
            } else {
                Err(Error::Overflow)
            },
            final(self).value == old(self).value + (if r is Ok {
                delta as int
            } else {
                0
            }),
    {
        let next: i64 = self.value as i64 + delta as i64;
        if next > Self::MAX as i64 {
            return Err(Error::Overflow);
        }
        if next < i32::MIN as i64 {
            return Err(Error::Overflow);
        }
        self.value = next as i32;
        Ok(())
    }
}

impl Default for Window {
    fn default() -> (r: Self)
        ensures
            r.value == Window::INITIAL,
    {
        Window::new()
    }
}

/// The connection's window and the window of one stream: data counts against both.
pub struct Pair<'a> {
    pub conn: &'a mut Window,
    pub stream: &'a mut Window,
}

/// What may be taken from two windows at once.
pub open spec fn pair_room(conn: Window, stream: Window) -> int {
    min(conn.room(), stream.room())
}

/// The outcome of receiving data at one endpoint: the window, the bytes that were consumed
/// and not yet announced, and the increment to announce now.
pub struct Endpoint {
    pub window: i32,
    pub pending: u32,
    pub increment: Option<u32>,
}

/// Receiving `amount` bytes takes them from the window and adds them to the consumed bytes.
/// Once `threshold` is reached all of them are announced and return to the window.
pub open spec fn received(
    window: i32,
    pending: u32,
    threshold: u32,
    amount: int,
    replenish: bool,
) -> Result<Endpoint, Error> {
    let total = min(pending + amount, u32::MAX as int);
    if amount == 0 {
        Ok(Endpoint { window, pending, increment: None })
    } else if !replenish || total < threshold {
        Ok(Endpoint { window: (window - amount) as i32, pending: total as u32, increment: None })
    } else if total > Window::MAX || window - amount + total > Window::MAX {
        Err(Error::Overflow)
    } else {
        Ok(
            Endpoint {
                window: (window - amount + total) as i32,
                pending: 0,
                increment: Some(total as u32),
            },
        )
    }
}

/// What receiving `amount` bytes does to the connection and to a stream.
pub struct Received {
    pub conn: Endpoint,
    pub stream: Endpoint,
}

/// Data that exceeds a window is refused. The connection always announces what was
/// consumed, the stream only while it is open for more.
pub open spec fn received_pair(
    conn: Window,
    stream: Window,
    amount: int,
    pending: (u32, u32),
    thresholds: (u32, u32),
    replenish_stream: bool,
) -> Result<Received, Error> {
    if amount > pair_room(conn, stream) {
        Err(Error::Stalled)
    } else {
        match received(conn.value, pending.0, thresholds.0, amount, true) {
            Err(error) => Err(error),
            Ok(c) => match received(
                stream.value,
                pending.1,
                thresholds.1,
                amount,
                replenish_stream,
            ) {
                Err(error) => Err(error),
                Ok(s) => Ok(Received { conn: c, stream: s }),
            },
        }
    }
}

fn receive_endpoint(
    window: i32,
    pending: u32,
    threshold: u32,
    amount: i32,
    replenish: bool,
) -> (r: Result<Endpoint, Error>)
    requires
        0 <= amount <= max(window as int, 0),
    ensures
        r == received(window, pending, threshold, amount as int, replenish),
{
    if amount == 0 {
        return Ok(Endpoint { window, pending, increment: None });
    }
    let pending: u32 = pending.saturating_add(amount as u32);
    let consumed: i32 = window - amount;
    if !replenish || pending < threshold {
        return Ok(Endpoint { window: consumed, pending, increment: None });
    }
    if pending > 0x7fff_ffff {
        return Err(Error::Overflow);
    }
    let next: i64 = consumed as i64 + pending as i64;
    if next > Window::MAX as i64 {
        return Err(Error::Overflow);
    }
    Ok(Endpoint { window: next as i32, pending: 0, increment: Some(pending) })
}

impl<'a> Pair<'a> {
    pub fn available(&self) -> (r: usize)
        ensures
            r == pair_room(*old(self.conn), *old(self.stream)),
    {
        let conn: usize = self.conn.available();
        let stream: usize = self.stream.available();
        if conn < stream {
            conn
        } else {
            stream
        }
    }

    /// Takes `n` bytes from both windows, or nothing.
    pub fn consume(&mut self, n: usize) -> (r: Result<(), Error>)
        ensures
            r == if n <= pair_room(*old(self).conn, *old(self).stream) {
                Ok::<(), Error>(())
            } else {
                Err(Error::Stalled)
            },
            final(self).conn.value == old(self).conn.value - (if r is Ok {
                n as int
            } else {
                0
            }),
            final(self).stream.value == old(self).stream.value - (if r is Ok {
                n as int
            } else {
                0
            }),
            *final(final(self).conn) == *final(old(self).conn),
            *final(final(self).stream) == *final(old(self).stream),
    {
        if self.available() < n {
            return Err(Error::Stalled);
        }
        self.conn.value = self.conn.value - n as i32;
        self.stream.value = self.stream.value - n as i32;
        Ok(())
    }

    /// The bytes of `limit` that both windows admit now.
    pub fn debit_up_to(&self, limit: usize) -> (r: usize)
        ensures
            r == min(pair_room(*old(self.conn), *old(self.stream)), limit as int),
    {
        let available: usize = self.available();
        if available < limit {
            available
        } else {
            limit
        }
    }

    /// Plans the receipt of `amount` bytes; nothing changes yet. `pending` and `thresholds`
    /// are those of the connection and of the stream.
    pub fn receive(
        &self,
        amount: usize,
        pending: (u32, u32),
        thresholds: (u32, u32),
        replenish_stream: bool,
    ) -> (r: Result<Received, Error>)
        ensures
            r == received_pair(
                *old(self.conn),
                *old(self.stream),
                amount as int,
                pending,
                thresholds,
                replenish_stream,
            ),
    {
        if self.available() < amount {
            return Err(Error::Stalled);
        }
        let taken: i32 = amount as i32;
        let conn = match receive_endpoint(self.conn.value, pending.0, thresholds.0, taken, true) {
            Ok(conn) => conn,
            Err(error) => return Err(error),
        };
        let stream = match receive_endpoint(
            self.stream.value,
            pending.1,
            thresholds.1,
            taken,
            replenish_stream,
        ) {
            Ok(stream) => stream,
            Err(error) => return Err(error),
        };
        Ok(Received { conn, stream })
    }
}

/// Credit is neither lost nor made: the window together with what was consumed and not yet
/// announced stays the same, as long as the unannounced bytes fit their counter.
pub proof fn law_receiving_conserves_credit(
    window: i32,
    pending: u32,
    threshold: u32,
    amount: int,
    replenish: bool,
)
    requires
        0 <= amount <= max(window as int, 0),
        pending + amount <= u32::MAX,
    ensures
        received(window, pending, threshold, amount, replenish) matches Ok(end) ==> end.window
            + end.pending == window + pending,
{
}

/// A receiver whose window and unannounced bytes fit a window together never overflows it.
pub proof fn law_receiving_within_a_window_succeeds(
    window: i32,
    pending: u32,
    threshold: u32,
    amount: int,
    replenish: bool,
)
    requires
        0 <= amount <= max(window as int, 0),
        window + pending <= Window::MAX,
    ensures
        received(window, pending, threshold, amount, replenish) is Ok,
{
}

} // verus!
