//! The RESP `ZREM key member [member ...]` request, decoded from an array of
//! bulk strings.

use vstd::prelude::*;

verus! {

/// A RESP value, as far as requests use it.
#[derive(Debug, PartialEq, Eq)]
pub enum Message {
    /// A bulk string; `None` is the null bulk string.
    BulkString(Option<Vec<u8>>),
    /// An array; `None` is the null array.
    Array(Option<Vec<Message>>),
    Integer(i64),
}

/// `ZREM`: remove members from the sorted set at a key.
#[derive(Debug, PartialEq, Eq)]
pub struct SortedSetRemove {
    key: Vec<u8>,
    members: Vec<Vec<u8>>,
}

/// The bytes of a non-null bulk string.
pub open spec fn bulk_bytes(m: Message) -> Option<Seq<u8>> {
    match m {
        Message::BulkString(Some(b)) => Some(b@),
        _ => None,
    }
}

/// The items of a non-null array.
pub open spec fn array_items(m: Message) -> Option<Seq<Message>> {
    match m {
        Message::Array(Some(items)) => Some(items@),
        _ => None,
    }
}

/// A `ZREM` request is a non-null array of at least three non-null bulk
/// strings: the command name, the key, and the members, none of them empty.
pub open spec fn is_zrem_message(m: Message) -> bool {
    match array_items(m) {
        Some(items) => {
            &&& items.len() >= 3
            &&& forall|i: int| 0 <= i < items.len() ==> (#[trigger] bulk_bytes(items[i])) is Some
            &&& forall|i: int| 2 <= i < items.len() ==> (#[trigger] bulk_bytes(items[i]))->Some_0.len() > 0
        },
        None => false,
    }
}

/// Why a message is no `ZREM` request.
#[derive(PartialEq, Eq, Structural, Debug, Clone, Copy)]
pub enum MalformedCommand {
    Malformed,
}

/// `ZREM` in ASCII.
pub open spec fn zrem_name() -> Seq<u8> {
    seq![90u8, 82, 69, 77]
}

/// The items a `ZREM` request is sent as: the command name, the key and the
/// members.
pub open spec fn request_items(s: SortedSetRemove) -> Seq<Seq<u8>> {
    seq![zrem_name(), s.key_spec()] + s.members_spec()
}

/// `m` is a non-null array of non-null bulk strings holding `items`.
pub open spec fn is_bulk_array_of(m: Message, items: Seq<Seq<u8>>) -> bool {
    &&& array_items(m) is Some
    &&& array_items(m)->Some_0.len() == items.len()
    &&& forall|i: int| 0 <= i < items.len() ==> bulk_bytes(#[trigger] array_items(m)->Some_0[i]) == Some(items[i])
}

/// `d` holds the key and the members that message `m` carries.
pub open spec fn decodes_to(m: Message, d: SortedSetRemove) -> bool {
    let items = array_items(m)->Some_0;
    &&& d.key_spec() == bulk_bytes(items[1])->Some_0
    &&& d.members_spec().len() == items.len() - 2
    &&& forall|i: int| 0 <= i < items.len() - 2
        ==> #[trigger] d.members_spec()[i] == bulk_bytes(items[i + 2])->Some_0
}

/// Round trip: the message a request with at least one member, none empty,
/// is sent as is a valid `ZREM` message, and decoding it gives back the
/// same key and members.
pub proof fn lemma_message_round_trip(s: SortedSetRemove, m: Message, d: SortedSetRemove)
    requires
        is_bulk_array_of(m, request_items(s)),
        s.members_spec().len() >= 1,
        forall|i: int| 0 <= i < s.members_spec().len() ==> (#[trigger] s.members_spec()[i]).len() > 0,
        is_zrem_message(m) ==> decodes_to(m, d),
    ensures
        is_zrem_message(m),
        d.key_spec() == s.key_spec(),
        d.members_spec() == s.members_spec(),
{
    let items = array_items(m)->Some_0;
    let want = request_items(s);
    assert forall|i: int| 0 <= i < items.len() implies (#[trigger] bulk_bytes(items[i])) is Some by {
        assert(bulk_bytes(items[i]) == Some(want[i]));
    }
    assert forall|i: int| 2 <= i < items.len() implies (#[trigger] bulk_bytes(items[i]))->Some_0.len() > 0 by {
        assert(bulk_bytes(items[i]) == Some(want[i]));
        assert(want[i] == s.members_spec()[i - 2]);
    }
    assert(bulk_bytes(items[1]) == Some(want[1]));
    assert forall|i: int| 0 <= i < s.members_spec().len() implies d.members_spec()[i] == #[trigger] s.members_spec()[i] by {
        assert(bulk_bytes(items[i + 2]) == Some(want[i + 2]));
    }
    assert(d.members_spec() =~= s.members_spec());
}

impl SortedSetRemove {
    pub closed spec fn key_spec(&self) -> Seq<u8> {
        self.key@
    }

    pub closed spec fn members_spec(&self) -> Seq<Seq<u8>> {
        self.members@.map_values(|m: Vec<u8>| m@)
    }

    pub fn new(key: &[u8], members: &[&[u8]]) -> (r: Self)
        ensures
            r.key_spec() == key@,
            r.members_spec() == members@.map_values(|m: &[u8]| m@),
    {
        let mut ms: Vec<Vec<u8>> = Vec::new();
        let mut i: usize = 0;
        while i < members.len()
            invariant
                i <= members@.len(),
                ms@.len() == i,
                forall|k: int| 0 <= k < i ==> #[trigger] ms@[k]@ == members@[k]@,
            decreases members@.len() - i,
        {
            ms.push(vstd::slice::slice_to_vec(members[i]));
            i = i + 1;
        }
        let r = SortedSetRemove { key: vstd::slice::slice_to_vec(key), members: ms };
        assert(r.members_spec() =~= members@.map_values(|m: &[u8]| m@));
        r
    }

    pub fn key(&self) -> (r: &[u8])
        ensures
            r@ == self.key_spec(),
    {
        self.key.as_slice()
    }

    pub fn members(&self) -> (r: &[Vec<u8>])
        ensures
            r@.map_values(|m: Vec<u8>| m@) == self.members_spec(),
    {
        self.members.as_slice()
    }

    /// The request as a RESP message: a flat array of the command name
    /// `ZREM`, the key and each member, all bulk strings.
    pub fn to_message(&self) -> (r: Message)
        ensures
            is_bulk_array_of(r, request_items(*self)),
    {
        let mut items: Vec<Message> = Vec::new();
        let name: Vec<u8> = vstd::slice::slice_to_vec(&[90u8, 82, 69, 77]);
        assert(name@ =~= zrem_name());
        items.push(Message::BulkString(Some(name)));
        items.push(Message::BulkString(Some(vstd::slice::slice_to_vec(self.key.as_slice()))));
        let mut i: usize = 0;
        while i < self.members.len()
            invariant
                i <= self.members@.len(),
                items@.len() == i + 2,
                forall|k: int| 0 <= k < i + 2 ==> bulk_bytes(#[trigger] items@[k]) == Some(request_items(*self)[k]),
            decreases self.members@.len() - i,
        {
            items.push(Message::BulkString(Some(vstd::slice::slice_to_vec(self.members[i].as_slice()))));
            proof {
                assert(request_items(*self)[i + 2] == self.members_spec()[i as int]);
            }
            i = i + 1;
        }
        Message::Array(Some(items))
    }

    /// Decodes a `ZREM` request; the command name has already been used to
    /// pick this decoder and is not checked again.
    pub fn try_from(other: Message) -> (r: Result<Self, MalformedCommand>)
        ensures
            is_zrem_message(other) <==> r is Ok,
            r is Ok ==> decodes_to(other, r->Ok_0),
    {
        let ghost g = other;
        let array: &Vec<Message> = match &other {
            Message::Array(Some(a)) => a,
            _ => { return Err(MalformedCommand::Malformed); },
        };
        assert(array_items(g) == Some(array@));
        if array.len() < 3 {
            return Err(MalformedCommand::Malformed);
        }
        let mut key: Vec<u8> = Vec::new();
        let mut members: Vec<Vec<u8>> = Vec::new();
        let mut i: usize = 0;
        while i < array.len()
            invariant
                array@.len() >= 3,
                array_items(g) == Some(array@),
                g == other,
                i <= array@.len(),
                forall|k: int| 0 <= k < i ==> (#[trigger] bulk_bytes(array@[k])) is Some,
                forall|k: int| 2 <= k < i ==> (#[trigger] bulk_bytes(array@[k]))->Some_0.len() > 0,
                i >= 2 ==> key@ == bulk_bytes(array@[1])->Some_0,
                members@.len() == if i >= 2 { i - 2 } else { 0 },
                forall|k: int| 0 <= k < members@.len() ==> #[trigger] members@[k]@ == bulk_bytes(array@[k + 2])->Some_0,
            decreases array@.len() - i,
        {
            match &array[i] {
                Message::BulkString(Some(b)) => {
                    if i == 1 {
                        key = b.clone();
                    } else if i >= 2 {
                        if b.len() == 0 {
                            assert(bulk_bytes(array@[i as int])->Some_0.len() == 0);
                            assert(bulk_bytes(array_items(g)->Some_0[i as int])->Some_0.len() == 0);
                            assert(!is_zrem_message(g));
                            return Err(MalformedCommand::Malformed);
                        }
                        members.push(b.clone());
                    }
                },
                _ => {
                    assert(bulk_bytes(array@[i as int]) is None);
                    assert(bulk_bytes(array_items(g)->Some_0[i as int]) is None);
                    assert(!is_zrem_message(g));
                    return Err(MalformedCommand::Malformed);
                },
            }
            i = i + 1;
        }
        let r = SortedSetRemove { key, members };
        Ok(r)
    }
}

} // verus!
