//! A read-only cursor over a byte slice, with lookahead.
//!
//! The cursor borrows its input and only ever moves forward. Its view is the
//! sequence of bytes that are still ahead of it.

use vstd::prelude::*;
use vstd::slice::slice_subrange;

verus! {

/// A position in a borrowed byte slice, held as the bytes still to be read.
#[derive(Clone, Copy)]
pub struct Cursor<'a> {
    rest: &'a [u8],
}

impl<'a> View for Cursor<'a> {
    type V = Seq<u8>;

    closed spec fn view(&self) -> Seq<u8> {
        self.rest@
    }
}

impl<'a> Cursor<'a> {
    /// A cursor at the start of `input`.
    pub fn new(input: &'a [u8]) -> (iter: Self)
        ensures
            iter@ == input@,
    {
        Cursor { rest: input }
    }

    /// The bytes still ahead of the cursor.
    pub fn as_slice(&self) -> (rest: &'a [u8])
        ensures
            rest@ == self@,
    {
        self.rest
    }

    /// The number of bytes still ahead of the cursor.
    pub fn len(&self) -> (count: usize)
        ensures
            count == self@.len(),
    {
        self.rest.len()
    }

    /// Steps over the next byte and returns it, or returns `None` at the end.
    pub fn next(&mut self) -> (byte: Option<u8>)
        ensures
            old(self)@.len() == 0 ==> byte is None && final(self)@ == old(self)@,
            old(self)@.len() > 0 ==> byte == Some(old(self)@[0]) && final(self)@ == old(
                self,
            )@.skip(1),
    {
        if self.rest.len() == 0 {
            None
        } else {
            let byte = self.rest[0];
            self.rest = slice_subrange(self.rest, 1, self.rest.len());
            Some(byte)
        }
    }

    /// Steps over the next `count` bytes.
    pub fn advance(&mut self, count: usize)
        requires
            count <= old(self)@.len(),
        ensures
            final(self)@ == old(self)@.skip(count as int),
    {
        self.rest = slice_subrange(self.rest, count, self.rest.len());
    }
}

/// The byte `n` places ahead in `s`, if there is one.
pub open spec fn peek_at(s: Seq<u8>, n: int) -> Option<u8> {
    if 0 <= n < s.len() {
        Some(s[n])
    } else {
        None
    }
}

/// Looks at the next byte without moving the cursor.
pub fn peek(iter: &Cursor) -> (byte: Option<u8>)
    ensures
        byte == peek_at(iter@, 0),
{
    peek_n(iter, 0)
}

/// Looks at the byte `n` places ahead without moving the cursor.
pub fn peek_n(iter: &Cursor, n: usize) -> (byte: Option<u8>)
    ensures
        byte == peek_at(iter@, n as int),
{
    let rest = iter.as_slice();
    if n < rest.len() {
        Some(rest[n])
    } else {
        None
    }
}

/// Steps over the next byte, which the caller knows to be `expected`; an
/// `expected` of `None` stands for the end of the input.
pub fn assert_next_eq(iter: &mut Cursor, expected: Option<u8>)
    requires
        peek_at(old(iter)@, 0) == expected,
    ensures
        expected is None ==> final(iter)@ == old(iter)@,
        expected is Some ==> final(iter)@ == old(iter)@.skip(1),
{
    let _ = iter.next();
}

/// The accumulators that `function` can reach by folding `bytes` from
/// `initial`, continuing as long as it answers `Ok`.
pub open spec fn folds_to<T, F: Fn(T, u8) -> Result<T, T>>(
    function: F,
    bytes: Seq<u8>,
    initial: T,
    accumulator: T,
) -> bool
    decreases bytes.len(),
{
    if bytes.len() == 0 {
        accumulator == initial
    } else {
        exists|previous: T|
            folds_to(function, bytes.drop_last(), initial, previous) && #[trigger] function.ensures(
                (previous, bytes.last()),
                Ok(accumulator),
            )
    }
}

/// Folds `function` over the bytes ahead, stopping before the first byte for
/// which it answers `Err`: the cursor is left in front of that byte, so that
/// it is the next one read. With `Ok` the cursor is at the end.
pub fn try_fold_peek<T, F>(iter: &mut Cursor, initial: T, function: F) -> (outcome: Result<T, T>)
    where F: Fn(T, u8) -> Result<T, T>
    requires
        forall|accumulator: T, byte: u8| function.requires((accumulator, byte)),
    ensures
        final(iter)@.len() <= old(iter)@.len(),
        final(iter)@ == old(iter)@.skip(old(iter)@.len() - final(iter)@.len()),
        match outcome {
            Ok(accumulator) => final(iter)@.len() == 0 && folds_to(
                function,
                old(iter)@,
                initial,
                accumulator,
            ),
            Err(accumulator) => final(iter)@.len() > 0 && exists|previous: T|
                folds_to(
                    function,
                    old(iter)@.take(old(iter)@.len() - final(iter)@.len()),
                    initial,
                    previous,
                ) && function.ensures((previous, final(iter)@[0]), Err(accumulator)),
        },
{
    let ghost start = iter@;
    let total = iter.len();
    let mut accumulator = initial;
    let mut passed: usize = 0;
    while iter.len() > 0
        invariant
            forall|accumulator: T, byte: u8| function.requires((accumulator, byte)),
            start == old(iter)@,
            start.len() == total,
            passed + iter@.len() == start.len(),
            iter@ == start.skip(passed as int),
            folds_to(function, start.take(passed as int), initial, accumulator),
        decreases iter@.len(),
    {
        let byte = iter.as_slice()[0];
        match function(accumulator, byte) {
            Ok(next) => {
                proof {
                    let longer = start.take(passed + 1);
                    assert(longer.drop_last() =~= start.take(passed as int));
                    assert(longer.last() == byte);
                }
                accumulator = next;
                let _ = iter.next();
                passed += 1;
            },
            Err(stopped) => {
                return Err(stopped);
            },
        }
    }
    Ok(accumulator)
}

/// `predicate` answered `false` for each of the first `count` bytes of `s`.
pub open spec fn all_miss<P: Fn(u8) -> bool>(predicate: P, s: Seq<u8>, count: int) -> bool {
    forall|j: int| 0 <= j < count ==> predicate.ensures((#[trigger] s[j],), false)
}

/// `predicate` answered `true` for each of the first `count` bytes of `s`.
pub open spec fn all_hit<P: Fn(u8) -> bool>(predicate: P, s: Seq<u8>, count: int) -> bool {
    forall|j: int| 0 <= j < count ==> predicate.ensures((#[trigger] s[j],), true)
}

/// `function` counts the bytes that `predicate` rejects and stops at the
/// first one that it accepts.
spec fn counts_misses<F: Fn(usize, u8) -> Result<usize, usize>, P: Fn(u8) -> bool>(
    function: F,
    predicate: P,
) -> bool {
    forall|count: usize, byte: u8, step: Result<usize, usize>| #[trigger]
        function.ensures((count, byte), step) ==> match step {
            Ok(next) => predicate.ensures((byte,), false) && (count < usize::MAX ==> next == count
                + 1),
            Err(stopped) => stopped == count && predicate.ensures((byte,), true),
        }
}

/// A fold of a counting function over `bytes` ends with their number, and
/// the predicate rejected every one of them.
proof fn lemma_fold_counts<F: Fn(usize, u8) -> Result<usize, usize>, P: Fn(u8) -> bool>(
    function: F,
    predicate: P,
    bytes: Seq<u8>,
    accumulator: usize,
)
    requires
        counts_misses(function, predicate),
        bytes.len() <= usize::MAX,
        folds_to(function, bytes, 0usize, accumulator),
    ensures
        accumulator == bytes.len(),
        all_miss(predicate, bytes, bytes.len() as int),
    decreases bytes.len(),
{
    if bytes.len() > 0 {
        let previous = choose|previous: usize|
            folds_to(function, bytes.drop_last(), 0usize, previous) && #[trigger] function.ensures(
                (previous, bytes.last()),
                Ok(accumulator),
            );
        lemma_fold_counts(function, predicate, bytes.drop_last(), previous);
        assert forall|j: int| 0 <= j < bytes.len() implies predicate.ensures(
            (#[trigger] bytes[j],),
            false,
        ) by {
            if j < bytes.len() - 1 {
                assert(bytes[j] == bytes.drop_last()[j]);
            }
        }
    }
}

/// Moves the cursor in front of the first byte that `predicate` accepts and
/// returns how many bytes were passed, or moves it to the end and returns
/// `None` when `predicate` accepts none of them.
pub fn position_peek<P: Fn(u8) -> bool>(iter: &mut Cursor, predicate: P) -> (found: Option<usize>)
    requires
        forall|byte: u8| predicate.requires((byte,)),
    ensures
        final(iter)@.len() <= old(iter)@.len(),
        final(iter)@ == old(iter)@.skip(old(iter)@.len() - final(iter)@.len()),
        all_miss(predicate, old(iter)@, old(iter)@.len() - final(iter)@.len()),
        match found {
            Some(passed) => passed == old(iter)@.len() - final(iter)@.len() && final(iter)@.len()
                > 0 && predicate.ensures((final(iter)@[0],), true),
            None => final(iter)@.len() == 0,
        },
{
    let ghost start = iter@;
    let total = iter.len();
    let accepts = &predicate;
    let count = |passed: usize, byte: u8| -> (step: Result<usize, usize>)
        requires
            accepts.requires((byte,)),
        ensures
            match step {
                Ok(next) => accepts.ensures((byte,), false) && (passed < usize::MAX ==> next
                    == passed + 1),
                Err(stopped) => stopped == passed && accepts.ensures((byte,), true),
            },
        {
            if accepts(byte) {
                Err(passed)
            } else if passed < usize::MAX {
                Ok(passed + 1)
            } else {
                // No slice is long enough for the count to get here.
                Ok(passed)
            }
        };
    let outcome = try_fold_peek(iter, 0usize, count);
    match outcome {
        Ok(passed) => {
            proof {
                lemma_fold_counts(count, predicate, start, passed);
            }
            None
        },
        Err(passed) => {
            proof {
                let consumed = start.take(start.len() - iter@.len());
                let previous = choose|previous: usize|
                    folds_to(count, consumed, 0usize, previous) && count.ensures(
                        (previous, iter@[0]),
                        Err(passed),
                    );
                lemma_fold_counts(count, predicate, consumed, previous);
                assert forall|j: int| 0 <= j < consumed.len() implies predicate.ensures(
                    (#[trigger] start[j],),
                    false,
                ) by {
                    assert(start[j] == consumed[j]);
                }
            }
            Some(passed)
        },
    }
}

/// Moves the cursor in front of the first byte that `predicate` accepts, or
/// to the end, and returns the bytes that were passed.
pub fn slice_until<'a, P: Fn(u8) -> bool>(iter: &mut Cursor<'a>, predicate: P) -> (passed: &'a [u8])
    requires
        forall|byte: u8| predicate.requires((byte,)),
    ensures
        passed@.len() + final(iter)@.len() == old(iter)@.len(),
        passed@ == old(iter)@.take(passed@.len() as int),
        final(iter)@ == old(iter)@.skip(passed@.len() as int),
        all_miss(predicate, passed@, passed@.len() as int),
        final(iter)@.len() > 0 ==> predicate.ensures((final(iter)@[0],), true),
{
    let remainder = iter.as_slice();
    match position_peek(iter, predicate) {
        Some(i) => slice_subrange(remainder, 0, i),
        None => remainder,
    }
}

/// Moves the cursor in front of the first byte that `predicate` rejects, or
/// to the end, and returns the bytes that were passed.
pub fn slice_while<'a, P: Fn(u8) -> bool>(iter: &mut Cursor<'a>, predicate: P) -> (passed: &'a [u8])
    requires
        forall|byte: u8| predicate.requires((byte,)),
    ensures
        passed@.len() + final(iter)@.len() == old(iter)@.len(),
        passed@ == old(iter)@.take(passed@.len() as int),
        final(iter)@ == old(iter)@.skip(passed@.len() as int),
        all_hit(predicate, passed@, passed@.len() as int),
        final(iter)@.len() > 0 ==> predicate.ensures((final(iter)@[0],), false),
{
    let accepts = &predicate;
    let rejects = |byte: u8| -> (rejected: bool)
        requires
            accepts.requires((byte,)),
        ensures
            accepts.ensures((byte,), !rejected),
        { !accepts(byte) };
    slice_until(iter, rejects)
}

/// Moves the cursor in front of the first byte that `predicate` accepts and
/// returns `true`, or moves it to the end and returns `false` when
/// `predicate` accepts none of the bytes ahead.
pub fn advance_until<P: Fn(u8) -> bool>(iter: &mut Cursor, predicate: P) -> (more: bool)
    requires
        forall|byte: u8| predicate.requires((byte,)),
    ensures
        final(iter)@.len() <= old(iter)@.len(),
        final(iter)@ == old(iter)@.skip(old(iter)@.len() - final(iter)@.len()),
        all_miss(predicate, old(iter)@, old(iter)@.len() - final(iter)@.len()),
        more == (final(iter)@.len() > 0),
        more ==> predicate.ensures((final(iter)@[0],), true),
{
    position_peek(iter, predicate).is_some()
}

} // verus!
