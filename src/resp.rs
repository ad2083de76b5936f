//! Framing of RESP requests: an array of bulk strings
//! (`*<n>\r\n` then `$<len>\r\n<bytes>\r\n` for each), or an inline command,
//! a CRLF-terminated line of space-separated words.

use vstd::prelude::*;
use crate::codec::{Codec, ParseError, ParseOk, crlf_from, first_crlf, find_crlf, lemma_crlf_from};
use crate::stats::{Stat, decimal, push_decimal, signed_decimal};
use crate::codec::push_slice;
use crate::codec::{crlf_bytes, has_crlf_at};
use crate::zrem::{Message, SortedSetRemove, bulk_bytes, array_items, is_zrem_message, request_items, zrem_name};

verus! {

/// The most digits a length may have.
pub const MAX_DIGITS: usize = 9;

pub open spec fn is_digit(c: u8) -> bool {
    48 <= c <= 57
}

/// The value of a string of decimal digits.
pub open spec fn digits_value(s: Seq<u8>) -> nat
    decreases s.len(),
{
    if s.len() == 0 {
        0
    } else {
        digits_value(s.drop_last()) * 10 + (s.last() - 48) as nat
    }
}

/// A decimal number from `i` to the next CRLF: one to `MAX_DIGITS` digits.
/// Gives the number and the position after the CRLF.
pub open spec fn number_line(b: Seq<u8>, i: nat) -> Result<(nat, nat), ParseError> {
    match crlf_from(b, i) {
        None => Err(ParseError::WouldBlock),
        Some(e) => {
            let d = b.subrange(i as int, e as int);
            if 1 <= d.len() <= MAX_DIGITS && forall|k: int| 0 <= k < d.len() ==> is_digit(#[trigger] d[k]) {
                Ok((digits_value(d), e + 2))
            } else {
                Err(ParseError::Invalid)
            }
        },
    }
}

/// A bulk string at `i`: its bytes and the position after it.
pub open spec fn bulk_at(b: Seq<u8>, i: nat) -> Result<(Seq<u8>, nat), ParseError> {
    if i >= b.len() {
        Err(ParseError::WouldBlock)
    } else if b[i as int] != 36 {
        Err(ParseError::Invalid)
    } else {
        match number_line(b, i + 1) {
            Err(e) => Err(e),
            Ok((n, j)) => if j + n + 2 > b.len() {
                Err(ParseError::WouldBlock)
            } else if b[(j + n) as int] == 13 && b[(j + n + 1) as int] == 10 {
                Ok((b.subrange(j as int, (j + n) as int), j + n + 2))
            } else {
                Err(ParseError::Invalid)
            },
        }
    }
}

/// `k` bulk strings from `i`.
pub open spec fn bulks_from(b: Seq<u8>, i: nat, k: nat) -> Result<(Seq<Seq<u8>>, nat), ParseError>
    decreases k,
{
    if k == 0 {
        Ok((Seq::empty(), i))
    } else {
        match bulk_at(b, i) {
            Err(e) => Err(e),
            Ok((x, j)) => match bulks_from(b, j, (k - 1) as nat) {
                Err(e) => Err(e),
                Ok((xs, end)) => Ok((seq![x] + xs, end)),
            },
        }
    }
}

/// The words of `line` from `i` on, given the word `cur` being read and the
/// words `acc` already complete.
pub open spec fn words_from(line: Seq<u8>, i: nat, cur: Seq<u8>, acc: Seq<Seq<u8>>) -> Seq<Seq<u8>>
    decreases line.len() - i,
{
    let done = if cur.len() > 0 { acc.push(cur) } else { acc };
    if i >= line.len() {
        done
    } else if line[i as int] == 32 {
        words_from(line, i + 1, Seq::empty(), done)
    } else {
        words_from(line, i + 1, cur.push(line[i as int]), acc)
    }
}

/// The space-separated words of a line.
pub open spec fn words(line: Seq<u8>) -> Seq<Seq<u8>> {
    words_from(line, 0, Seq::empty(), Seq::empty())
}

/// The items of the request at the front of `b` and its length.
pub open spec fn request_frame(b: Seq<u8>) -> Result<(Seq<Seq<u8>>, nat), ParseError> {
    if b.len() == 0 {
        Err(ParseError::WouldBlock)
    } else if b[0] == 42 {
        match number_line(b, 1) {
            Err(e) => Err(e),
            Ok((n, j)) => bulks_from(b, j, n),
        }
    } else {
        match first_crlf(b) {
            None => Err(ParseError::WouldBlock),
            Some(e) => Ok((words(b.subrange(0, e as int)), e + 2)),
        }
    }
}

fn number_line_exec(b: &[u8], i: usize) -> (r: Result<(usize, usize), ParseError>)
    requires
        i <= b@.len(),
    ensures
        match number_line(b@, i as nat) {
            Ok((n, j)) => r == Ok::<(usize, usize), ParseError>((n as usize, j as usize)) && n < 1_000_000_000
                && j <= b@.len(),
            Err(e) => r == Err::<(usize, usize), ParseError>(e),
        },
{
    proof { lemma_crlf_from(b@, i as nat); }
    let len = b.len();
    let mut e: usize = i;
    while len - e > 1 && !(b[e] == 13 && b[e + 1] == 10)
        invariant
            i <= e <= len,
            len == b@.len(),
            crlf_from(b@, e as nat) == crlf_from(b@, i as nat),
        decreases len - e,
    {
        e = e + 1;
    }
    if len - e <= 1 {
        return Err(ParseError::WouldBlock);
    }
    let ghost d = b@.subrange(i as int, e as int);
    if e == i || e - i > MAX_DIGITS {
        return Err(ParseError::Invalid);
    }
    let mut value: u64 = 0;
    let mut k: usize = i;
    while k < e
        invariant
            i <= k <= e,
            e < len,
            len == b@.len(),
            e - i <= MAX_DIGITS,
            e > i,
            crlf_from(b@, i as nat) == Some(e as nat),
            d == b@.subrange(i as int, e as int),
            forall|m: int| i <= m < k ==> is_digit(#[trigger] b@[m]),
            value == digits_value(b@.subrange(i as int, k as int)),
            value < pow10((k - i) as nat),
        decreases e - k,
    {
        if !(48 <= b[k] && b[k] <= 57) {
            assert(!is_digit(d[k - i]));
            return Err(ParseError::Invalid);
        }
        proof {
            assert(b@.subrange(i as int, k + 1).drop_last() =~= b@.subrange(i as int, k as int));
            lemma_pow10_bound((k - i) as nat);
        }
        value = value * 10 + (b[k] - 48) as u64;
        k = k + 1;
    }
    proof {
        assert forall|m: int| 0 <= m < d.len() implies is_digit(#[trigger] d[m]) by {
            assert(d[m] == b@[i + m]);
        }
        lemma_pow10_bound((e - i) as nat);
        assert(b@.subrange(i as int, k as int) == d);
    }
    Ok((value as usize, e + 2))
}

pub open spec fn pow10(n: nat) -> nat
    decreases n,
{
    if n == 0 { 1 } else { 10 * pow10((n - 1) as nat) }
}

proof fn lemma_pow10_bound(n: nat)
    requires
        n <= 9,
    ensures
        pow10(n) <= 1_000_000_000,
        pow10(n) >= 1,
{
    reveal_with_fuel(pow10, 10);
    lemma_pow10_mono(n, 9);
    lemma_pow10_pos(n);
}

proof fn lemma_pow10_pos(n: nat)
    ensures
        pow10(n) >= 1,
    decreases n,
{
    if n > 0 {
        lemma_pow10_pos((n - 1) as nat);
    }
}

proof fn lemma_pow10_mono(a: nat, b: nat)
    requires
        a <= b,
    ensures
        pow10(a) <= pow10(b),
    decreases b,
{
    if a < b {
        lemma_pow10_mono(a, (b - 1) as nat);
        assert(pow10(b) == 10 * pow10((b - 1) as nat));
    }
}


fn bulk_at_exec(b: &[u8], i: usize) -> (r: Result<(Vec<u8>, usize), ParseError>)
    requires
        i <= b@.len(),
    ensures
        match bulk_at(b@, i as nat) {
            Ok((x, j)) => r is Ok && r->Ok_0.0@ == x && r->Ok_0.1 == j && j <= b@.len(),
            Err(e) => r == Err::<(Vec<u8>, usize), ParseError>(e),
        },
{
    let len = b.len();
    if i >= len {
        return Err(ParseError::WouldBlock);
    }
    if b[i] != 36 {
        return Err(ParseError::Invalid);
    }
    match number_line_exec(b, i + 1) {
        Err(e) => Err(e),
        Ok((n, j)) => {
            if n > len - j || len - j - n < 2 {
                Err(ParseError::WouldBlock)
            } else if b[j + n] == 13 && b[j + n + 1] == 10 {
                let x = vstd::slice::slice_to_vec(vstd::slice::slice_subrange(b, j, j + n));
                Ok((x, j + n + 2))
            } else {
                Err(ParseError::Invalid)
            }
        },
    }
}

/// The items of a frame as bulk-string messages.
pub open spec fn bulks_are(msgs: Seq<Message>, items: Seq<Seq<u8>>) -> bool {
    &&& msgs.len() == items.len()
    &&& forall|m: int| 0 <= m < msgs.len() ==> bulk_bytes(#[trigger] msgs[m]) == Some(items[m])
}

fn bulks_exec(b: &[u8], start: usize, k: usize) -> (r: Result<(Vec<Message>, usize), ParseError>)
    requires
        start <= b@.len(),
    ensures
        match bulks_from(b@, start as nat, k as nat) {
            Ok((xs, end)) => r is Ok && bulks_are(r->Ok_0.0@, xs) && r->Ok_0.1 == end && end <= b@.len(),
            Err(e) => r == Err::<(Vec<Message>, usize), ParseError>(e),
        },
{
    let mut msgs: Vec<Message> = Vec::new();
    let ghost mut acc: Seq<Seq<u8>> = Seq::empty();
    let mut pos: usize = start;
    let mut c: usize = 0;
    while c < k
        invariant
            c <= k,
            pos <= b@.len(),
            bulks_are(msgs@, acc),
            bulks_from(b@, start as nat, k as nat) == (match bulks_from(b@, pos as nat, (k - c) as nat) {
                Ok((xs, end)) => Ok::<(Seq<Seq<u8>>, nat), ParseError>((acc + xs, end)),
                Err(e) => Err(e),
            }),
        decreases k - c,
    {
        match bulk_at_exec(b, pos) {
            Err(e) => {
                return Err(e);
            },
            Ok((x, j)) => {
                proof {
                    let rest = bulks_from(b@, j as nat, (k - c - 1) as nat);
                    match rest {
                        Ok((xs, end)) => {
                            assert(acc + (seq![x@] + xs) =~= acc.push(x@) + xs);
                        },
                        Err(e) => {},
                    }
                }
                let ghost xv = x@;
                msgs.push(Message::BulkString(Some(x)));
                proof {
                    acc = acc.push(xv);
                    assert(bulk_bytes(msgs@[msgs@.len() - 1]) == Some(xv));
                }
                pos = j;
            },
        }
        c = c + 1;
    }
    assert(acc + Seq::<Seq<u8>>::empty() =~= acc);
    Ok((msgs, pos))
}

fn words_exec(line: &[u8]) -> (r: Vec<Message>)
    ensures
        bulks_are(r@, words(line@)),
{
    let mut msgs: Vec<Message> = Vec::new();
    let ghost mut acc: Seq<Seq<u8>> = Seq::empty();
    let mut cur: Vec<u8> = Vec::new();
    let mut i: usize = 0;
    while i < line.len()
        invariant
            i <= line@.len(),
            bulks_are(msgs@, acc),
            words(line@) == words_from(line@, i as nat, cur@, acc),
        decreases line@.len() - i,
    {
        if line[i] == 32 {
            if cur.len() > 0 {
                let ghost cv = cur@;
                msgs.push(Message::BulkString(Some(cur)));
                proof {
                    acc = acc.push(cv);
                    assert(bulk_bytes(msgs@[msgs@.len() - 1]) == Some(cv));
                }
                cur = Vec::new();
            } else {
                assert(cur@ =~= Seq::<u8>::empty());
            }
        } else {
            cur.push(line[i]);
        }
        i = i + 1;
    }
    if cur.len() > 0 {
        let ghost cv = cur@;
        msgs.push(Message::BulkString(Some(cur)));
        proof {
            acc = acc.push(cv);
            assert(bulk_bytes(msgs@[msgs@.len() - 1]) == Some(cv));
        }
    }
    msgs
}

/// Splits the request at the front of `b` into its items; gives them as
/// bulk-string messages, with the request's length.
pub fn frame(b: &[u8]) -> (r: Result<(Vec<Message>, usize), ParseError>)
    ensures
        match request_frame(b@) {
            Ok((items, n)) => r is Ok && bulks_are(r->Ok_0.0@, items) && r->Ok_0.1 == n && n <= b@.len(),
            Err(e) => r == Err::<(Vec<Message>, usize), ParseError>(e),
        },
{
    if b.len() == 0 {
        return Err(ParseError::WouldBlock);
    }
    if b[0] == 42 {
        match number_line_exec(b, 1) {
            Err(e) => Err(e),
            Ok((n, j)) => bulks_exec(b, j, n),
        }
    } else {
        match find_crlf(b) {
            None => Err(ParseError::WouldBlock),
            Some(e) => {
                let line = vstd::slice::slice_subrange(b, 0, e);
                Ok((words_exec(line), e + 2))
            },
        }
    }
}

/// A RESP request, as far as this library decodes them.
#[derive(Debug, PartialEq, Eq)]
pub enum Request {
    SortedSetRemove(SortedSetRemove),
}

pub open spec fn ascii_lower(c: u8) -> u8 {
    if 65 <= c <= 90 { (c + 32) as u8 } else { c }
}

/// `zrem` in any case.
pub open spec fn is_zrem_name(s: Seq<u8>) -> bool {
    &&& s.len() == 4
    &&& ascii_lower(s[0]) == 122 && ascii_lower(s[1]) == 114
    &&& ascii_lower(s[2]) == 101 && ascii_lower(s[3]) == 109
}

/// A framed request is a `ZREM` with a key and at least one member, none
/// of them empty.
pub open spec fn zrem_items(items: Seq<Seq<u8>>) -> bool {
    &&& items.len() >= 3
    &&& is_zrem_name(items[0])
    &&& forall|i: int| 2 <= i < items.len() ==> (#[trigger] items[i]).len() > 0
}

fn lower_exec(c: u8) -> (r: u8)
    ensures
        r == ascii_lower(c),
{
    if 65 <= c && c <= 90 { c + 32 } else { c }
}

/// Parses RESP requests.
#[derive(Default, Copy, Clone)]
pub struct RequestParser {
    _unused: (),
}

impl RequestParser {
    pub fn new() -> Self {
        RequestParser { _unused: () }
    }

    /// Parses one request from the front of `buffer`: it waits or fails as
    /// framing does; a framed request that is no valid `ZREM` is invalid.
    pub fn parse(&self, buffer: &[u8]) -> (r: Result<ParseOk<Request>, ParseError>)
        ensures
            match request_frame(buffer@) {
                Ok((items, n)) => if zrem_items(items) {
                    &&& r is Ok
                    &&& n <= buffer@.len()
                    &&& r->Ok_0.consumed == n
                    &&& r->Ok_0.value->SortedSetRemove_0.key_spec() == items[1]
                    &&& r->Ok_0.value->SortedSetRemove_0.members_spec() == items.subrange(2, items.len() as int)
                } else {
                    r == Err::<ParseOk<Request>, ParseError>(ParseError::Invalid)
                },
                Err(e) => r == Err::<ParseOk<Request>, ParseError>(e),
            },
    {
        let (msgs, n) = match frame(buffer) {
            Err(e) => { return Err(e); },
            Ok(f) => f,
        };
        let ghost items = request_frame(buffer@)->Ok_0.0;
        if msgs.len() < 3 {
            return Err(ParseError::Invalid);
        }
        let is_zrem = match &msgs[0] {
            Message::BulkString(Some(name)) => {
                assert(name@ == items[0]);
                name.len() == 4 && lower_exec(name[0]) == 122 && lower_exec(name[1]) == 114
                    && lower_exec(name[2]) == 101 && lower_exec(name[3]) == 109
            },
            _ => false,
        };
        if !is_zrem {
            return Err(ParseError::Invalid);
        }
        let ghost m = Message::Array(Some(msgs));
        proof {
            assert(array_items(m) == Some(msgs@));
            assert forall|i: int| 0 <= i < msgs@.len() implies (#[trigger] bulk_bytes(msgs@[i])) is Some by {}
            assert(is_zrem_message(m) <==> zrem_items(items)) by {
                if is_zrem_message(m) {
                    assert forall|i: int| 2 <= i < items.len() implies (#[trigger] items[i]).len() > 0 by {
                        assert(bulk_bytes(msgs@[i]) == Some(items[i]));
                    }
                }
                if zrem_items(items) {
                    assert forall|i: int| 2 <= i < msgs@.len() implies (#[trigger] bulk_bytes(msgs@[i]))->Some_0.len() > 0 by {
                        assert(bulk_bytes(msgs@[i]) == Some(items[i]));
                    }
                }
            }
        }
        match SortedSetRemove::try_from(Message::Array(Some(msgs))) {
            Ok(req) => {
                proof {
                    assert(req.members_spec() =~= items.subrange(2, items.len() as int));
                }
                Ok(ParseOk::new(Request::SortedSetRemove(req), n))
            },
            Err(_) => Err(ParseError::Invalid),
        }
    }
}


/// `$<len>\r\n<bytes>\r\n`.
pub open spec fn bulk_encoding(x: Seq<u8>) -> Seq<u8> {
    seq![36u8] + decimal(x.len()) + crlf_bytes() + x + crlf_bytes()
}

/// `*<n>\r\n` followed by each item as a bulk string.
pub open spec fn array_encoding(items: Seq<Seq<u8>>) -> Seq<u8> {
    seq![42u8] + decimal(items.len()) + crlf_bytes() + items.map_values(|x: Seq<u8>| bulk_encoding(x)).flatten()
}

proof fn lemma_decimal(n: nat, k: nat)
    requires
        1 <= k <= 9,
        n < pow10(k),
    ensures
        1 <= decimal(n).len() <= k,
        forall|i: int| 0 <= i < decimal(n).len() ==> is_digit(#[trigger] decimal(n)[i]),
        digits_value(decimal(n)) == n,
    decreases n,
{
    if n >= 10 {
        assert(k >= 2) by {
            if k == 1 {
                reveal_with_fuel(pow10, 2);
            }
        }
        assert(pow10(k) == 10 * pow10((k - 1) as nat));
        lemma_decimal(n / 10, (k - 1) as nat);
        let d = decimal(n);
        assert(d.drop_last() =~= decimal(n / 10));
        assert(d.last() == (48 + n % 10) as u8);
        assert(d.last() - 48 == n % 10);
        assert(n == (n / 10) * 10 + n % 10);
        assert(digits_value(d) == digits_value(d.drop_last()) * 10 + (d.last() - 48) as nat);
    } else {
        let d = decimal(n);
        assert(d.drop_last() =~= Seq::<u8>::empty());
        assert(digits_value(d) == digits_value(d.drop_last()) * 10 + (d.last() - 48) as nat);
        reveal_with_fuel(pow10, 2);
        lemma_pow10_mono(1, k);
    }
}

proof fn lemma_crlf_from_at(b: Seq<u8>, i: nat, e: nat)
    requires
        i <= e,
        has_crlf_at(b, e as int),
        forall|j: int| i <= j < e ==> !has_crlf_at(b, j),
    ensures
        crlf_from(b, i) == Some(e),
    decreases e - i,
{
    if i < e {
        lemma_crlf_from_at(b, i + 1, e);
    }
}

proof fn lemma_number_line(b: Seq<u8>, i: nat, n: nat)
    requires
        n < 1_000_000_000,
        i + decimal(n).len() + 2 <= b.len(),
        b.subrange(i as int, (i + decimal(n).len() + 2) as int) == decimal(n) + crlf_bytes(),
    ensures
        number_line(b, i) == Ok::<(nat, nat), ParseError>((n, i + decimal(n).len() + 2)),
{
    reveal_with_fuel(pow10, 10);
    lemma_decimal(n, 9);
    let d = decimal(n);
    let e = i + d.len();
    assert forall|j: int| i <= j < e implies !has_crlf_at(b, j) by {
        assert(b[j] == b.subrange(i as int, (i + d.len() + 2) as int)[(j - i) as int]);
        assert(b[j] == d[(j - i) as int]);
    }
    assert(b[e as int] == b.subrange(i as int, (i + d.len() + 2) as int)[d.len() as int]);
    assert(b[(e + 1) as int] == b.subrange(i as int, (i + d.len() + 2) as int)[(d.len() + 1) as int]);
    lemma_crlf_from_at(b, i, e);
    assert(b.subrange(i as int, e as int) =~= d);
}

proof fn lemma_bulk_at(b: Seq<u8>, i: nat, x: Seq<u8>)
    requires
        x.len() < 1_000_000_000,
        i + bulk_encoding(x).len() <= b.len(),
        b.subrange(i as int, (i + bulk_encoding(x).len()) as int) == bulk_encoding(x),
    ensures
        bulk_at(b, i) == Ok::<(Seq<u8>, nat), ParseError>((x, i + bulk_encoding(x).len())),
{
    let enc = bulk_encoding(x);
    let d = decimal(x.len());
    let sub = b.subrange(i as int, (i + enc.len()) as int);
    assert(b[i as int] == sub[0]);
    assert(b.subrange((i + 1) as int, (i + 1 + d.len() + 2) as int) =~= sub.subrange((1) as int, (1 + d.len() + 2) as int));
    assert(sub.subrange((1) as int, (1 + d.len() + 2) as int) =~= d + crlf_bytes());
    lemma_number_line(b, i + 1, x.len());
    let j = i + 1 + d.len() + 2;
    assert(b.subrange(j as int, (j + x.len()) as int) =~= sub.subrange((j - i) as int, (j - i + x.len()) as int));
    assert(sub.subrange((j - i) as int, (j - i + x.len()) as int) =~= x);
    assert(b[(j + x.len()) as int] == sub[(j - i + x.len()) as int]);
    assert(b[(j + x.len() + 1) as int] == sub[(j - i + x.len() + 1) as int]);
}

proof fn lemma_bulks_from(b: Seq<u8>, i: nat, items: Seq<Seq<u8>>)
    requires
        forall|k: int| 0 <= k < items.len() ==> (#[trigger] items[k]).len() < 1_000_000_000,
        i + items.map_values(|x: Seq<u8>| bulk_encoding(x)).flatten().len() <= b.len(),
        b.subrange(i as int, (i + items.map_values(|x: Seq<u8>| bulk_encoding(x)).flatten().len()) as int)
            == items.map_values(|x: Seq<u8>| bulk_encoding(x)).flatten(),
    ensures
        bulks_from(b, i, items.len()) == Ok::<(Seq<Seq<u8>>, nat), ParseError>(
            (items, i + items.map_values(|x: Seq<u8>| bulk_encoding(x)).flatten().len()),
        ),
    decreases items.len(),
{
    let encs = items.map_values(|x: Seq<u8>| bulk_encoding(x));
    let all = encs.flatten();
    if items.len() == 0 {
        assert(items =~= Seq::<Seq<u8>>::empty());
    } else {
        let first = bulk_encoding(items[0]);
        let tail = items.drop_first();
        assert(encs.drop_first() =~= tail.map_values(|x: Seq<u8>| bulk_encoding(x)));
        assert(all == first + encs.drop_first().flatten());
        let rest_all = tail.map_values(|x: Seq<u8>| bulk_encoding(x)).flatten();
        assert(b.subrange(i as int, (i + first.len()) as int) =~= all.subrange(0, first.len() as int));
        assert(all.subrange(0, first.len() as int) =~= first);
        lemma_bulk_at(b, i, items[0]);
        let j = i + first.len();
        assert(b.subrange(j as int, (j + rest_all.len()) as int) =~= all.subrange(first.len() as int, all.len() as int));
        assert(all.subrange(first.len() as int, all.len() as int) =~= rest_all);
        assert forall|k: int| 0 <= k < tail.len() implies (#[trigger] tail[k]).len() < 1_000_000_000 by {
            assert(tail[k] == items[(k + 1) as int]);
        }
        lemma_bulks_from(b, j, tail);
        assert(seq![items[0]] + tail =~= items);
    }
}

/// Round trip of the array form: an array of bulk strings (fewer than a
/// billion, each shorter than a billion bytes), followed by any bytes,
/// frames as exactly its items and is consumed whole.
pub proof fn lemma_array_round_trip(items: Seq<Seq<u8>>, rest: Seq<u8>)
    requires
        items.len() < 1_000_000_000,
        forall|k: int| 0 <= k < items.len() ==> (#[trigger] items[k]).len() < 1_000_000_000,
    ensures
        request_frame(array_encoding(items) + rest) == Ok::<(Seq<Seq<u8>>, nat), ParseError>(
            (items, array_encoding(items).len()),
        ),
{
    let b = array_encoding(items) + rest;
    let d = decimal(items.len());
    let all = items.map_values(|x: Seq<u8>| bulk_encoding(x)).flatten();
    assert(b[0] == 42);
    assert(b.subrange((1) as int, (1 + d.len() + 2) as int) =~= d + crlf_bytes());
    lemma_number_line(b, 1, items.len());
    let j = 1 + d.len() + 2;
    assert(b.subrange(j as int, (j + all.len()) as int) =~= all);
    lemma_bulks_from(b, j, items);
}

proof fn lemma_number_line_prefix(b: Seq<u8>, i: nat, n: nat)
    requires
        n < 1_000_000_000,
        i <= b.len() < i + decimal(n).len() + 2,
        b.subrange(i as int, b.len() as int) == (decimal(n) + crlf_bytes()).subrange(0, b.len() - i),
    ensures
        number_line(b, i) == Err::<(nat, nat), ParseError>(ParseError::WouldBlock),
{
    reveal_with_fuel(pow10, 10);
    lemma_decimal(n, 9);
    let d = decimal(n);
    let full = d + crlf_bytes();
    lemma_crlf_from(b, i);
    assert forall|j: int| i <= j implies !has_crlf_at(b, j) by {
        if has_crlf_at(b, j) {
            assert(b[j] == b.subrange(i as int, b.len() as int)[j - i]);
            assert(b[j] == full[j - i]);
            if j - i < d.len() {
                assert(full[j - i] == d[j - i]);
            }
        }
    }
}

proof fn lemma_bulk_prefix(b: Seq<u8>, i: nat, x: Seq<u8>)
    requires
        x.len() < 1_000_000_000,
        i <= b.len() < i + bulk_encoding(x).len(),
        b.subrange(i as int, b.len() as int) == bulk_encoding(x).subrange(0, b.len() - i),
    ensures
        bulk_at(b, i) == Err::<(Seq<u8>, nat), ParseError>(ParseError::WouldBlock),
{
    let enc = bulk_encoding(x);
    let d = decimal(x.len());
    let sub = b.subrange(i as int, b.len() as int);
    assert forall|m: int| i <= m < b.len() implies #[trigger] b[m] == enc[m - i] by {
        assert(b[m] == sub[m - i]);
    }
    assert forall|m: int| 0 <= m < d.len() + 2 implies enc[1 + m] == #[trigger] (d + crlf_bytes())[m] by {}
    if b.len() > i {
        assert(b[i as int] == enc[0]);
        if b.len() < i + 1 + d.len() + 2 {
            assert(b.subrange((i + 1) as int, b.len() as int) =~= (d + crlf_bytes()).subrange(0, b.len() - i - 1));
            lemma_number_line_prefix(b, i + 1, x.len());
        } else {
            assert(b.subrange((i + 1) as int, (i + 1 + d.len() + 2) as int) =~= d + crlf_bytes());
            lemma_number_line(b, i + 1, x.len());
        }
    }
}

proof fn lemma_bulks_prefix(b: Seq<u8>, i: nat, items: Seq<Seq<u8>>)
    requires
        forall|k: int| 0 <= k < items.len() ==> (#[trigger] items[k]).len() < 1_000_000_000,
        i <= b.len() < i + items.map_values(|x: Seq<u8>| bulk_encoding(x)).flatten().len(),
        b.subrange(i as int, b.len() as int)
            == items.map_values(|x: Seq<u8>| bulk_encoding(x)).flatten().subrange(0, b.len() - i),
    ensures
        bulks_from(b, i, items.len()) is Err,
        bulks_from(b, i, items.len())->Err_0 == ParseError::WouldBlock,
    decreases items.len(),
{
    let encs = items.map_values(|x: Seq<u8>| bulk_encoding(x));
    let all = encs.flatten();
    if items.len() == 0 {
    } else {
        let first = bulk_encoding(items[0]);
        let tail = items.drop_first();
        assert(encs.drop_first() =~= tail.map_values(|x: Seq<u8>| bulk_encoding(x)));
        assert(all == first + encs.drop_first().flatten());
        let rest_all = tail.map_values(|x: Seq<u8>| bulk_encoding(x)).flatten();
        if b.len() < i + first.len() {
            assert(b.subrange(i as int, b.len() as int) =~= first.subrange(0, b.len() - i));
            lemma_bulk_prefix(b, i, items[0]);
        } else {
            assert(b.subrange(i as int, (i + first.len()) as int) =~= first);
            lemma_bulk_at(b, i, items[0]);
            let j = i + first.len();
            assert forall|m: int| j <= m < b.len() implies #[trigger] b[m] == rest_all[m - j] by {
                assert(b[m] == b.subrange(i as int, b.len() as int)[m - i]);
                assert(all[m - i] == rest_all[m - j]);
            }
            assert(b.subrange(j as int, b.len() as int) =~= rest_all.subrange(0, b.len() - j));
            assert forall|k: int| 0 <= k < tail.len() implies (#[trigger] tail[k]).len() < 1_000_000_000 by {
                assert(tail[k] == items[k + 1]);
            }
            lemma_bulks_prefix(b, j, tail);
        }
    }
}

/// Partial input of the array form: every proper prefix of an array of bulk
/// strings (fewer than a billion, each shorter than a billion bytes) asks
/// for more bytes.
pub proof fn lemma_array_prefix_would_block(items: Seq<Seq<u8>>, k: int)
    requires
        items.len() < 1_000_000_000,
        forall|m: int| 0 <= m < items.len() ==> (#[trigger] items[m]).len() < 1_000_000_000,
        0 <= k < array_encoding(items).len(),
    ensures
        request_frame(array_encoding(items).subrange(0, k)) == Err::<(Seq<Seq<u8>>, nat), ParseError>(
            ParseError::WouldBlock,
        ),
{
    let enc = array_encoding(items);
    let b = enc.subrange(0, k);
    let d = decimal(items.len());
    let all = items.map_values(|x: Seq<u8>| bulk_encoding(x)).flatten();
    if k > 0 {
        assert(b[0] == 42);
        if k < 1 + d.len() + 2 {
            assert(b.subrange(1, k) =~= (d + crlf_bytes()).subrange(0, k - 1));
            lemma_number_line_prefix(b, 1, items.len());
        } else {
            assert(b.subrange(1, (1 + d.len() + 2) as int) =~= d + crlf_bytes());
            lemma_number_line(b, 1, items.len());
            let j = 1 + d.len() + 2;
            assert(b.subrange(j as int, k) =~= all.subrange(0, k - j));
            lemma_bulks_prefix(b, j as nat, items);
        }
    }
}

fn push_bulk(buf: &mut Vec<u8>, x: &[u8])
    ensures
        final(buf)@ == old(buf)@ + bulk_encoding(x@),
{
    buf.push(36u8);
    push_decimal(x.len() as u128, buf);
    push_slice(buf, &[13u8, 10]);
    push_slice(buf, x);
    push_slice(buf, &[13u8, 10]);
    assert(final(buf)@ =~= old(buf)@ + bulk_encoding(x@));
}

impl SortedSetRemove {
    /// Writes the request as a RESP array of bulk strings: `ZREM`, the key,
    /// then each member. Returns the number of bytes written.
    pub fn compose(&self, buf: &mut Vec<u8>) -> (n: usize)
        ensures
            final(buf)@ == old(buf)@ + array_encoding(request_items(*self)),
            n == array_encoding(request_items(*self)).len(),
    {
        let before = buf.len();
        let members = self.members();
        let ghost items = request_items(*self);
        buf.push(42u8);
        push_decimal(members.len() as u128 + 2, buf);
        push_slice(buf, &[13u8, 10]);
        let ghost head = buf@;
        push_bulk(buf, &[90u8, 82, 69, 77]);
        push_bulk(buf, self.key());
        proof {
            assert(seq![90u8, 82, 69, 77] =~= zrem_name());
            let m = items.subrange(0, 2).map_values(|x: Seq<u8>| bulk_encoding(x));
            assert(m =~= seq![bulk_encoding(items[0])].push(bulk_encoding(items[1])));
            seq![bulk_encoding(items[0])].lemma_flatten_push(bulk_encoding(items[1]));
            Seq::<Seq<u8>>::empty().lemma_flatten_push(bulk_encoding(items[0]));
            assert(seq![bulk_encoding(items[0])] =~= Seq::<Seq<u8>>::empty().push(bulk_encoding(items[0])));
            assert(buf@ =~= head + m.flatten());
        }
        let mut i: usize = 0;
        while i < members.len()
            invariant
                i <= members@.len(),
                items == request_items(*self),
                items.len() == members@.len() + 2,
                forall|k: int| 0 <= k < members@.len() ==> #[trigger] members@[k]@ == items[k + 2],
                buf@ == head + items.subrange(0, i + 2).map_values(|x: Seq<u8>| bulk_encoding(x)).flatten(),
            decreases members@.len() - i,
        {
            let ghost prev = buf@;
            push_bulk(buf, members[i].as_slice());
            proof {
                let s0 = items.subrange(0, i + 2).map_values(|x: Seq<u8>| bulk_encoding(x));
                assert(items.subrange(0, i + 3).map_values(|x: Seq<u8>| bulk_encoding(x)) =~= s0.push(bulk_encoding(items[i + 2])));
                s0.lemma_flatten_push(bulk_encoding(items[i + 2]));
                assert(buf@ =~= head + items.subrange(0, i + 3).map_values(|x: Seq<u8>| bulk_encoding(x)).flatten());
            }
            i = i + 1;
        }
        proof {
            assert(items.subrange(0, items.len() as int) =~= items);
            assert(buf@ =~= old(buf)@ + array_encoding(items));
        }
        buf.len() - before
    }
}

/// Round trip of a `ZREM` request on the wire: the bytes it composes to,
/// followed by any bytes, parse back to the same key and members, consuming
/// exactly the encoding. It must have at least one member, none empty, and
/// fewer than a billion items of fewer than a billion bytes each.
pub proof fn lemma_zrem_round_trip(s: SortedSetRemove, rest: Seq<u8>)
    requires
        s.members_spec().len() >= 1,
        s.members_spec().len() + 2 < 1_000_000_000,
        s.key_spec().len() < 1_000_000_000,
        forall|i: int| 0 <= i < s.members_spec().len()
            ==> 0 < (#[trigger] s.members_spec()[i]).len() < 1_000_000_000,
    ensures
        ({
            let items = request_items(s);
            &&& request_frame(array_encoding(items) + rest) == Ok::<(Seq<Seq<u8>>, nat), ParseError>(
                (items, array_encoding(items).len()),
            )
            &&& zrem_items(items)
            &&& items[1] == s.key_spec()
            &&& items.subrange(2, items.len() as int) == s.members_spec()
        }),
{
    let items = request_items(s);
    assert forall|k: int| 0 <= k < items.len() implies (#[trigger] items[k]).len() < 1_000_000_000 by {
        if k >= 2 {
            assert(items[k] == s.members_spec()[k - 2]);
        }
    }
    lemma_array_round_trip(items, rest);
    assert forall|k: int| 2 <= k < items.len() implies (#[trigger] items[k]).len() > 0 by {
        assert(items[k] == s.members_spec()[k - 2]);
    }
    assert(items.subrange(2, items.len() as int) =~= s.members_spec());
}

/// `:<n>\r\n`, the integer reply.
pub open spec fn integer_reply(n: int) -> Seq<u8> {
    seq![58u8] + signed_decimal(n) + crlf_bytes()
}

/// Writes an integer reply, such as the count of members a `ZREM` removed.
pub fn compose_integer_reply(n: i64, buf: &mut Vec<u8>)
    ensures
        final(buf)@ == old(buf)@ + integer_reply(n as int),
{
    buf.push(58u8);
    if n < 0 {
        buf.push(45u8);
        push_decimal((-(n as i128)) as u128, buf);
    } else {
        push_decimal(n as u128, buf);
    }
    push_slice(buf, &[13u8, 10]);
    assert(final(buf)@ =~= old(buf)@ + integer_reply(n as int));
}

/// A RESP reply, as far as this library composes them.
#[derive(PartialEq, Eq, Structural, Debug, Clone, Copy)]
pub enum Response {
    /// An integer reply, such as the number of members a `ZREM` removed.
    Integer(i64),
}

/// The key and the members of a framed `ZREM`, when it is one.
pub open spec fn zrem_parse(b: Seq<u8>) -> Result<((Seq<u8>, Seq<Seq<u8>>), nat), ParseError> {
    match request_frame(b) {
        Ok((items, n)) => if zrem_items(items) {
            Ok(((items[1], items.subrange(2, items.len() as int)), n))
        } else {
            Err(ParseError::Invalid)
        },
        Err(e) => Err(e),
    }
}

impl Codec for RequestParser {
    type Request = Request;
    type Response = Response;
    type RequestView = (Seq<u8>, Seq<Seq<u8>>);

    open spec fn request_view(r: Request) -> (Seq<u8>, Seq<Seq<u8>>) {
        match r {
            Request::SortedSetRemove(z) => (z.key_spec(), z.members_spec()),
        }
    }

    open spec fn parse_spec(b: Seq<u8>) -> Result<((Seq<u8>, Seq<Seq<u8>>), nat), ParseError> {
        zrem_parse(b)
    }

    open spec fn response_spec(resp: Response, stats: Seq<Stat>) -> Seq<u8> {
        match resp {
            Response::Integer(n) => integer_reply(n as int),
        }
    }

    open spec fn hangup_spec(resp: Response) -> bool {
        false
    }

    fn decode(&self, buffer: &[u8]) -> (r: Result<ParseOk<Request>, ParseError>) {
        let len = buffer.len();
        self.parse(buffer)
    }

    fn encode_response(
        &self,
        request: &Request,
        response: &Response,
        stats: &Vec<Stat>,
        buffer: &mut Vec<u8>,
    ) -> (n: usize) {
        let before = buffer.len();
        match response {
            Response::Integer(v) => compose_integer_reply(*v, buffer),
        }
        buffer.len() - before
    }

    fn hangs_up(response: &Response) -> (r: bool) {
        false
    }
}

} // verus!
