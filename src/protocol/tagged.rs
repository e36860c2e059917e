//! The tagged-field trailer: a count, then `(tag, length, bytes)` entries in
//! ascending tag order. Entries whose tag the schema does not know are kept as
//! raw bytes so that they can be written back unchanged.
use vstd::prelude::*;

use super::types::{
    get_bytes, put_slice, put_uvarint, take_fixed, uvarint_bytes, uvarint_size, UnsignedVarInt,
};
use super::{decoded, Codec, DecodeError, EncodeError};

verus! {

/// A tagged field that the schema of its message does not know.
#[derive(Debug, Clone, PartialEq, Eq)]
pub struct RawTaggedField {
    /// The field's tag.
    pub tag: u32,
    /// The field's bytes, exactly as they were read.
    pub data: Vec<u8>,
}

impl DeepView for RawTaggedField {
    type V = (u32, Seq<u8>);

    open spec fn deep_view(&self) -> (u32, Seq<u8>) {
        (self.tag, self.data@)
    }
}

/// One trailer entry: its tag, the length of its bytes, then the bytes.
pub open spec fn entry_encode(e: (u32, Seq<u8>)) -> Seq<u8> {
    uvarint_bytes(e.0 as nat) + uvarint_bytes(e.1.len()) + e.1
}

/// Trailer entries one after the other.
pub open spec fn entries_encode(fs: Seq<(u32, Seq<u8>)>) -> Seq<u8>
    decreases fs.len(),
{
    if fs.len() == 0 {
        Seq::empty()
    } else {
        entries_encode(fs.drop_last()) + entry_encode(fs.last())
    }
}

/// The whole trailer: the number of entries, then the entries.
#[verifier::opaque]
pub open spec fn trailer_encode(fs: Seq<(u32, Seq<u8>)>) -> Seq<u8> {
    uvarint_bytes(fs.len()) + entries_encode(fs)
}

/// The entry header at the start of `s`: its tag, its length, and the bytes
/// the header takes.
pub open spec fn entry_header_decode(s: Seq<u8>) -> Option<(u32, u32, nat)> {
    match UnsignedVarInt.spec_decode(s) {
        Some((tag, k)) => match UnsignedVarInt.spec_decode(s.skip(k as int)) {
            Some((len, m)) => Some((tag, len, k + m)),
            None => None,
        },
        None => None,
    }
}

/// A raw entry at the start of `s`.
pub open spec fn entry_decode(s: Seq<u8>) -> Option<((u32, Seq<u8>), nat)> {
    match entry_header_decode(s) {
        Some((tag, len, k)) => match take_fixed(s.skip(k as int), len as nat) {
            Some((data, m)) => Some(((tag, data), k + m)),
            None => None,
        },
        None => None,
    }
}

/// `fs` with the entry `(t, d)` put in tag order, replacing an entry of the
/// same tag: what a map ordered by tag does on insertion.
pub open spec fn tagged_insert(fs: Seq<(u32, Seq<u8>)>, t: u32, d: Seq<u8>) -> Seq<(u32, Seq<u8>)>
    decreases fs.len(),
{
    if fs.len() == 0 {
        seq![(t, d)]
    } else if fs[0].0 < t {
        seq![fs[0]] + tagged_insert(fs.skip(1), t, d)
    } else if fs[0].0 == t {
        seq![(t, d)] + fs.skip(1)
    } else {
        seq![(t, d)] + fs
    }
}

/// `n` raw entries read from the start of `s`, collected in tag order.
pub open spec fn entries_decode(s: Seq<u8>, n: nat) -> Option<(Seq<(u32, Seq<u8>)>, nat)>
    decreases n,
{
    if n == 0 {
        Some((Seq::empty(), 0))
    } else {
        match entries_decode(s, (n - 1) as nat) {
            Some((fs, k)) => match entry_decode(s.skip(k as int)) {
                Some(((t, d), m)) => Some((tagged_insert(fs, t, d), k + m)),
                None => None,
            },
            None => None,
        }
    }
}

/// A trailer of raw entries at the start of `s`.
#[verifier::opaque]
pub open spec fn trailer_decode(s: Seq<u8>) -> Option<(Seq<(u32, Seq<u8>)>, nat)> {
    match UnsignedVarInt.spec_decode(s) {
        Some((n, k)) => match entries_decode(s.skip(k as int), n as nat) {
            Some((fs, m)) => Some((fs, k + m)),
            None => None,
        },
        None => None,
    }
}

/// Tags strictly ascending.
pub open spec fn tags_ascending(fs: Seq<(u32, Seq<u8>)>) -> bool {
    forall|i: int, j: int| 0 <= i < j < fs.len() ==> fs[i].0 < fs[j].0
}

/// Whether raw entries can be written in a trailer that also holds `known`
/// entries of the schema, all of whose tags are below `first`: tags ascending
/// and at least `first`, every length within 32 bits, and the entry count
/// within 32 bits.
pub open spec fn unknown_valid(fs: Seq<(u32, Seq<u8>)>, first: u32, known: nat) -> bool {
    &&& tags_ascending(fs)
    &&& forall|i: int| 0 <= i < fs.len() ==> #[trigger] fs[i].0 >= first
    &&& forall|i: int| 0 <= i < fs.len() ==> #[trigger] fs[i].1.len() <= u32::MAX
    &&& fs.len() + known <= u32::MAX
}

proof fn lemma_insert_last(fs: Seq<(u32, Seq<u8>)>, t: u32, d: Seq<u8>)
    requires
        forall|i: int| 0 <= i < fs.len() ==> #[trigger] fs[i].0 < t,
    ensures
        tagged_insert(fs, t, d) == fs.push((t, d)),
    decreases fs.len(),
{
    if fs.len() > 0 {
        let tail = fs.skip(1);
        assert forall|i: int| 0 <= i < tail.len() implies #[trigger] tail[i].0 < t by {
            assert(tail[i] == fs[i + 1]);
        }
        lemma_insert_last(tail, t, d);
        assert(seq![fs[0]] + tail.push((t, d)) =~= fs.push((t, d)));
    }
}

proof fn lemma_insert_at(fs: Seq<(u32, Seq<u8>)>, t: u32, d: Seq<u8>, i: int)
    requires
        0 <= i <= fs.len(),
        forall|k: int| 0 <= k < i ==> #[trigger] fs[k].0 < t,
        i < fs.len() ==> fs[i].0 >= t,
    ensures
        tagged_insert(fs, t, d) == if i < fs.len() && fs[i].0 == t {
            fs.update(i, (t, d))
        } else {
            fs.insert(i, (t, d))
        },
    decreases i,
{
    if i == 0 {
        if fs.len() == 0 {
            assert(fs.insert(0, (t, d)) =~= seq![(t, d)]);
        } else if fs[0].0 == t {
            assert(seq![(t, d)] + fs.skip(1) =~= fs.update(0, (t, d)));
        } else {
            assert(seq![(t, d)] + fs =~= fs.insert(0, (t, d)));
        }
    } else {
        let tail = fs.skip(1);
        assert forall|k: int| 0 <= k < i - 1 implies #[trigger] tail[k].0 < t by {
            assert(tail[k] == fs[k + 1]);
        }
        assert(fs[0].0 < t);
        lemma_insert_at(tail, t, d, i - 1);
        if i < fs.len() && fs[i].0 == t {
            assert(seq![fs[0]] + tail.update(i - 1, (t, d)) =~= fs.update(i, (t, d)));
        } else {
            assert(seq![fs[0]] + tail.insert(i - 1, (t, d)) =~= fs.insert(i, (t, d)));
        }
    }
}

proof fn lemma_entry_round_trip(e: (u32, Seq<u8>), rest: Seq<u8>)
    requires
        e.1.len() <= u32::MAX,
    ensures
        entry_decode(entry_encode(e) + rest) == Some((e, entry_encode(e).len())),
{
    let a = uvarint_bytes(e.0 as nat);
    let b = uvarint_bytes(e.1.len());
    let s = entry_encode(e) + rest;
    assert(s =~= a + (b + (e.1 + rest)));
    UnsignedVarInt.lemma_decode_encode(e.0, b + (e.1 + rest));
    assert(s.skip(a.len() as int) =~= b + (e.1 + rest));
    UnsignedVarInt.lemma_decode_encode(e.1.len() as u32, e.1 + rest);
    assert(s.skip((a.len() + b.len()) as int) =~= e.1 + rest);
    assert((b + (e.1 + rest)).skip(b.len() as int) =~= e.1 + rest);
    assert((e.1 + rest).take(e.1.len() as int) =~= e.1);
}

proof fn lemma_entries_round_trip(fs: Seq<(u32, Seq<u8>)>, rest: Seq<u8>)
    requires
        tags_ascending(fs),
        forall|i: int| 0 <= i < fs.len() ==> #[trigger] fs[i].1.len() <= u32::MAX,
    ensures
        entries_decode(entries_encode(fs) + rest, fs.len()) == Some((fs, entries_encode(fs).len())),
    decreases fs.len(),
{
    if fs.len() == 0 {
        assert(fs =~= Seq::<(u32, Seq<u8>)>::empty());
    } else {
        let init = fs.drop_last();
        let x = fs.last();
        let ei = entries_encode(init);
        let ex = entry_encode(x);
        assert(ei + ex + rest =~= ei + (ex + rest));
        assert forall|i: int, j: int| 0 <= i < j < init.len() implies init[i].0 < init[j].0 by {
            assert(init[i] == fs[i] && init[j] == fs[j]);
        }
        assert forall|i: int| 0 <= i < init.len() implies #[trigger] init[i].1.len() <= u32::MAX by {
            assert(init[i] == fs[i]);
        }
        assert forall|i: int| 0 <= i < init.len() implies #[trigger] init[i].0 < x.0 by {
            assert(init[i] == fs[i]);
        }
        assert(fs[fs.len() - 1].1.len() <= u32::MAX);
        lemma_entries_round_trip(init, ex + rest);
        assert((ei + (ex + rest)).skip(ei.len() as int) =~= ex + rest);
        lemma_entry_round_trip(x, rest);
        lemma_insert_last(init, x.0, x.1);
        assert(init.push(x) =~= fs);
    }
}

/// Reading back a trailer of raw entries gives the entries back.
pub proof fn lemma_trailer_round_trip(fs: Seq<(u32, Seq<u8>)>, rest: Seq<u8>)
    requires
        unknown_valid(fs, 0, 0),
    ensures
        trailer_decode(trailer_encode(fs) + rest) == Some((fs, trailer_encode(fs).len())),
{
    reveal(trailer_encode);
    reveal(trailer_decode);
    let a = uvarint_bytes(fs.len());
    let b = entries_encode(fs);
    assert(trailer_encode(fs) + rest =~= a + (b + rest));
    UnsignedVarInt.lemma_decode_encode(fs.len() as u32, b + rest);
    assert((a + (b + rest)).skip(a.len() as int) =~= b + rest);
    lemma_entries_round_trip(fs, rest);
}

proof fn lemma_entries_decode_stops(s: Seq<u8>, i: nat, n: nat)
    requires
        i <= n,
        entries_decode(s, i) is None,
    ensures
        entries_decode(s, n) is None,
    decreases n - i,
{
    if i < n {
        lemma_entries_decode_stops(s, i, (n - 1) as nat);
    }
}

/// Writes one trailer entry.
pub fn put_entry(buf: &mut Vec<u8>, tag: u32, data: &[u8])
    requires
        data@.len() <= u32::MAX,
    ensures
        final(buf)@ == old(buf)@ + entry_encode((tag, data@)),
{
    UnsignedVarInt.encode(buf, &tag);
    UnsignedVarInt.encode(buf, &(data.len() as u32));
    put_slice(buf, data);
    assert(buf@ =~= old(buf)@ + entry_encode((tag, data@)));
}

/// Writes every raw entry, in the order held.
pub fn write_unknown_tagged_fields(buf: &mut Vec<u8>, fields: &Vec<RawTaggedField>)
    requires
        forall|i: int| 0 <= i < fields.deep_view().len() ==> #[trigger] fields.deep_view()[i].1.len() <= u32::MAX,
    ensures
        final(buf)@ == old(buf)@ + entries_encode(fields.deep_view()),
{
    let ghost fs = fields.deep_view();
    let mut i: usize = 0;
    while i < fields.len()
        invariant
            i <= fields@.len(),
            fs == fields.deep_view(),
            forall|j: int| 0 <= j < fs.len() ==> #[trigger] fs[j].1.len() <= u32::MAX,
            buf@ == old(buf)@ + entries_encode(fs.take(i as int)),
        decreases fields@.len() - i,
    {
        let f = &fields[i];
        assert(fs[i as int] == f.deep_view());
        assert(fs[i as int].1.len() <= u32::MAX);
        put_entry(buf, f.tag, f.data.as_slice());
        assert(fs.take(i + 1).drop_last() =~= fs.take(i as int));
        i = i + 1;
        assert(buf@ =~= old(buf)@ + entries_encode(fs.take(i as int)));
    }
    assert(fs.take(i as int) =~= fs);
}

/// The bytes that `write_unknown_tagged_fields` would write, plus `start`.
pub fn compute_unknown_tagged_fields_size(fields: &Vec<RawTaggedField>, start: usize) -> (r: Result<usize, EncodeError>)
    requires
        forall|i: int| 0 <= i < fields.deep_view().len() ==> #[trigger] fields.deep_view()[i].1.len() <= u32::MAX,
    ensures
        r is Ok <==> start + entries_encode(fields.deep_view()).len() <= usize::MAX,
        r matches Ok(n) ==> n == start + entries_encode(fields.deep_view()).len(),
{
    let ghost fs = fields.deep_view();
    let mut total: usize = start;
    let mut i: usize = 0;
    while i < fields.len()
        invariant
            i <= fields@.len(),
            fs == fields.deep_view(),
            forall|j: int| 0 <= j < fs.len() ==> #[trigger] fs[j].1.len() <= u32::MAX,
            total == start + entries_encode(fs.take(i as int)).len(),
        decreases fields@.len() - i,
    {
        let f = &fields[i];
        assert(fs[i as int] == f.deep_view());
        assert(fs.take(i + 1).drop_last() =~= fs.take(i as int));
        proof {
            lemma_entries_encode_prefix(fs, i + 1);
        }
        let head = uvarint_size(f.tag as u64);
        let len = uvarint_size(f.data.len() as u64);
        let n = match head.checked_add(len) {
            Some(n) => n,
            None => {
                return Err(EncodeError);
            },
        };
        let n = match n.checked_add(f.data.len()) {
            Some(n) => n,
            None => {
                return Err(EncodeError);
            },
        };
        total = match total.checked_add(n) {
            Some(t) => t,
            None => {
                return Err(EncodeError);
            },
        };
        i = i + 1;
    }
    assert(fs.take(i as int) =~= fs);
    Ok(total)
}

proof fn lemma_entries_encode_prefix(fs: Seq<(u32, Seq<u8>)>, j: int)
    requires
        0 <= j <= fs.len(),
    ensures
        entries_encode(fs.take(j)).len() <= entries_encode(fs).len(),
    decreases fs.len(),
{
    if j == fs.len() {
        assert(fs.take(j) =~= fs);
    } else {
        assert(fs.drop_last().take(j) =~= fs.take(j));
        lemma_entries_encode_prefix(fs.drop_last(), j);
    }
}

/// Puts the raw entry `(tag, data)` into `fields` in tag order, replacing an
/// entry of the same tag.
pub fn insert_unknown_tagged_field(fields: &mut Vec<RawTaggedField>, tag: u32, data: Vec<u8>)
    ensures
        final(fields).deep_view() == tagged_insert(old(fields).deep_view(), tag, data@),
{
    let ghost fs = fields.deep_view();
    let mut i: usize = 0;
    while i < fields.len() && fields[i].tag < tag
        invariant
            i <= fields@.len(),
            fs == fields.deep_view(),
            forall|k: int| 0 <= k < i ==> #[trigger] fs[k].0 < tag,
        decreases fields@.len() - i,
    {
        assert(fs[i as int] == fields@[i as int].deep_view());
        i = i + 1;
    }
    if i < fields.len() {
        assert(fs[i as int] == fields@[i as int].deep_view());
    }
    proof {
        lemma_insert_at(fs, tag, data@, i as int);
    }
    let ghost entry = (tag, data@);
    if i < fields.len() && fields[i].tag == tag {
        fields.remove(i);
        fields.insert(i, RawTaggedField { tag, data });
        assert(fields.deep_view() =~= fs.update(i as int, entry));
    } else {
        fields.insert(i, RawTaggedField { tag, data });
        assert(fields.deep_view() =~= fs.insert(i as int, entry));
    }
}

/// Reads a trailer of raw entries at `pos`.
pub fn decode_unknown_tagged_fields(buf: &[u8], pos: usize) -> (r: Result<(Vec<RawTaggedField>, usize), DecodeError>)
    requires
        pos <= buf@.len(),
    ensures
        decoded(r, trailer_decode(buf@.skip(pos as int)), pos, buf@.len()),
{
    reveal(trailer_decode);
    let ghost s0 = buf@.skip(pos as int);
    let (n, start) = UnsignedVarInt.decode(buf, pos)?;
    let ghost s = buf@.skip(start as int);
    assert(s =~= s0.skip(start - pos));
    let mut fields: Vec<RawTaggedField> = Vec::new();
    let mut p: usize = start;
    let mut i: u32 = 0;
    assert(fields.deep_view() =~= Seq::<(u32, Seq<u8>)>::empty());
    while i < n
        invariant
            i <= n,
            pos <= start <= p <= buf@.len(),
            s == buf@.skip(start as int),
            s0 == buf@.skip(pos as int),
            s == s0.skip(start - pos),
            UnsignedVarInt.spec_decode(s0) == Some((n, (start - pos) as nat)),
            entries_decode(s, i as nat) == Some((fields.deep_view(), (p - start) as nat)),
        decreases n - i,
    {
        let ghost t = buf@.skip(p as int);
        assert(t =~= s.skip(p - start));
        let (tag, q) = match UnsignedVarInt.decode(buf, p) {
            Ok(x) => x,
            Err(e) => {
                proof {
                    reveal(trailer_decode);
                    lemma_entries_decode_stops(s, (i + 1) as nat, n as nat);
                }
                return Err(e);
            },
        };
        assert(buf@.skip(q as int) =~= t.skip(q - p));
        let (len, q2) = match UnsignedVarInt.decode(buf, q) {
            Ok(x) => x,
            Err(e) => {
                proof {
                    reveal(trailer_decode);
                    lemma_entries_decode_stops(s, (i + 1) as nat, n as nat);
                }
                return Err(e);
            },
        };
        assert(buf@.skip(q2 as int) =~= t.skip(q2 - p));
        let (data, q3) = match get_bytes(buf, q2, len as usize) {
            Ok(x) => x,
            Err(e) => {
                proof {
                    reveal(trailer_decode);
                    lemma_entries_decode_stops(s, (i + 1) as nat, n as nat);
                }
                return Err(e);
            },
        };
        assert(data.deep_view() =~= data@);
        insert_unknown_tagged_field(&mut fields, tag, data);
        p = q3;
        i = i + 1;
    }
    Ok((fields, p))
}

/// Checks `unknown_valid` at run time.
pub fn check_unknown_tagged_fields(fields: &Vec<RawTaggedField>, first: u32, known: usize) -> (r: bool)
    ensures
        r == unknown_valid(fields.deep_view(), first, known as nat),
{
    let ghost fs = fields.deep_view();
    if fields.len() > u32::MAX as usize || known > u32::MAX as usize || (fields.len() as u64)
        + (known as u64) > u32::MAX as u64 {
        return false;
    }
    let mut i: usize = 0;
    while i < fields.len()
        invariant
            i <= fields@.len(),
            fs == fields.deep_view(),
            forall|a: int, b: int| 0 <= a < b < i ==> fs[a].0 < fs[b].0,
            forall|a: int| 0 <= a < i ==> #[trigger] fs[a].0 >= first,
            forall|a: int| 0 <= a < i ==> #[trigger] fs[a].1.len() <= u32::MAX,
        decreases fields@.len() - i,
    {
        let f = &fields[i];
        assert(fs[i as int] == f.deep_view());
        if f.tag < first || f.data.len() > u32::MAX as usize {
            assert(fs[i as int].0 == f.tag && fs[i as int].1.len() == f.data@.len());
            return false;
        }
        if i > 0 {
            assert(fs[i - 1] == fields@[i - 1].deep_view());
            if fields[i - 1].tag >= f.tag {
                assert(!(fs[i - 1].0 < fs[i as int].0));
                return false;
            }
        }
        assert forall|a: int, b: int| 0 <= a < b < i + 1 implies fs[a].0 < fs[b].0 by {
            if b == i && a < i - 1 {
                assert(fs[a].0 < fs[i - 1].0);
            }
        }
        i = i + 1;
    }
    true
}

/// The trailer of a message whose schema knows no tagged field: every entry
/// is held raw.
#[derive(Debug, Copy, Clone, Default)]
pub struct UnknownTaggedFields;

impl Codec<Vec<RawTaggedField>> for UnknownTaggedFields {
    open spec fn valid(&self, v: Seq<(u32, Seq<u8>)>) -> bool {
        unknown_valid(v, 0, 0)
    }

    open spec fn spec_encode(&self, v: Seq<(u32, Seq<u8>)>) -> Seq<u8> {
        trailer_encode(v)
    }

    open spec fn spec_decode(&self, s: Seq<u8>) -> Option<(Seq<(u32, Seq<u8>)>, nat)> {
        trailer_decode(s)
    }

    proof fn lemma_decode_encode(&self, v: Seq<(u32, Seq<u8>)>, rest: Seq<u8>) {
        lemma_trailer_round_trip(v, rest);
    }

    fn encode(&self, buf: &mut Vec<u8>, value: &Vec<RawTaggedField>) -> (r: Result<(), EncodeError>) {
        if !check_unknown_tagged_fields(value, 0, 0) {
            return Err(EncodeError);
        }
        reveal(trailer_encode);
        put_uvarint(buf, value.len() as u64);
        write_unknown_tagged_fields(buf, value);
        assert(buf@ =~= old(buf)@ + trailer_encode(value.deep_view()));
        Ok(())
    }

    fn compute_size(&self, value: &Vec<RawTaggedField>) -> (r: Result<usize, EncodeError>) {
        if !check_unknown_tagged_fields(value, 0, 0) {
            return Err(EncodeError);
        }
        reveal(trailer_encode);
        compute_unknown_tagged_fields_size(value, uvarint_size(value.len() as u64))
    }

    fn decode(&self, buf: &[u8], pos: usize) -> (r: Result<(Vec<RawTaggedField>, usize), DecodeError>) {
        decode_unknown_tagged_fields(buf, pos)
    }
}

/// The entries of two lists, written one list after the other.
pub proof fn lemma_entries_concat(a: Seq<(u32, Seq<u8>)>, b: Seq<(u32, Seq<u8>)>)
    ensures
        entries_encode(a + b) == entries_encode(a) + entries_encode(b),
    decreases b.len(),
{
    if b.len() == 0 {
        assert(a + b =~= a);
        assert(entries_encode(a) + entries_encode(b) =~= entries_encode(a));
    } else {
        lemma_entries_concat(a, b.drop_last());
        assert((a + b).drop_last() =~= a + b.drop_last());
        assert((a + b).last() == b.last());
        assert(entries_encode(a) + entries_encode(b.drop_last()) + entry_encode(b.last())
            =~= entries_encode(a) + (entries_encode(b.drop_last()) + entry_encode(b.last())));
    }
}

/// Entries as a map from tag to bytes; an earlier entry of a tag wins over a
/// later one, which for entries in ascending tag order never arises.
pub open spec fn entries_map(fs: Seq<(u32, Seq<u8>)>) -> Map<u32, Seq<u8>>
    decreases fs.len(),
{
    if fs.len() == 0 {
        Map::empty()
    } else {
        entries_map(fs.skip(1)).insert(fs[0].0, fs[0].1)
    }
}

/// The map that inserting the entries one after another into an empty map
/// leaves: a later entry of a tag replaces an earlier one.
pub open spec fn inserted_map(fs: Seq<(u32, Seq<u8>)>) -> Map<u32, Seq<u8>>
    decreases fs.len(),
{
    if fs.len() == 0 {
        Map::empty()
    } else {
        inserted_map(fs.drop_last()).insert(fs.last().0, fs.last().1)
    }
}

/// `n` raw entries read from the start of `s`, in the order of the wire.
pub open spec fn raw_entries_decode(s: Seq<u8>, n: nat) -> Option<(Seq<(u32, Seq<u8>)>, nat)>
    decreases n,
{
    if n == 0 {
        Some((Seq::empty(), 0))
    } else {
        match raw_entries_decode(s, (n - 1) as nat) {
            Some((fs, k)) => match entry_decode(s.skip(k as int)) {
                Some((e, m)) => Some((fs.push(e), k + m)),
                None => None,
            },
            None => None,
        }
    }
}

/// A trailer's raw entries at the start of `s`, in the order of the wire.
pub open spec fn raw_trailer_decode(s: Seq<u8>) -> Option<(Seq<(u32, Seq<u8>)>, nat)> {
    match UnsignedVarInt.spec_decode(s) {
        Some((n, k)) => match raw_entries_decode(s.skip(k as int), n as nat) {
            Some((fs, m)) => Some((fs, k + m)),
            None => None,
        },
        None => None,
    }
}

/// Inserting into entries in ascending tag order keeps them so, and inserts
/// into their map; every tag of the result is above `lo` when `t` and the
/// tags of `fs` are.
proof fn lemma_insert_map(fs: Seq<(u32, Seq<u8>)>, t: u32, d: Seq<u8>, lo: int)
    requires
        tags_ascending(fs),
        forall|i: int| 0 <= i < fs.len() ==> #[trigger] fs[i].0 > lo,
        t > lo,
    ensures
        tags_ascending(tagged_insert(fs, t, d)),
        entries_map(tagged_insert(fs, t, d)) == entries_map(fs).insert(t, d),
        forall|i: int| 0 <= i < tagged_insert(fs, t, d).len() ==> #[trigger] tagged_insert(fs, t, d)[i].0 > lo,
    decreases fs.len(),
{
    let r = tagged_insert(fs, t, d);
    if fs.len() == 0 {
        assert(r == seq![(t, d)]);
        assert(r[0] == (t, d));
        assert(r.skip(1).len() == 0);
        assert(entries_map(r.skip(1)) == Map::<u32, Seq<u8>>::empty());
        assert(entries_map(fs) == Map::<u32, Seq<u8>>::empty());
    } else {
        let tail = fs.skip(1);
        assert forall|i: int, j: int| 0 <= i < j < tail.len() implies tail[i].0 < tail[j].0 by {
            assert(tail[i] == fs[i + 1] && tail[j] == fs[j + 1]);
        }
        if fs[0].0 < t {
            assert forall|i: int| 0 <= i < tail.len() implies #[trigger] tail[i].0 > fs[0].0 by {
                assert(tail[i] == fs[i + 1]);
            }
            lemma_insert_map(tail, t, d, fs[0].0 as int);
            let ti = tagged_insert(tail, t, d);
            assert(r =~= seq![fs[0]] + ti);
            assert(r.skip(1) =~= ti);
            assert(entries_map(r) =~= entries_map(fs).insert(t, d));
            assert forall|i: int, j: int| 0 <= i < j < r.len() implies r[i].0 < r[j].0 by {
                if i > 0 {
                    assert(r[i] == ti[i - 1] && r[j] == ti[j - 1]);
                } else {
                    assert(r[j] == ti[j - 1]);
                }
            }
            assert forall|i: int| 0 <= i < r.len() implies #[trigger] r[i].0 > lo by {
                if i > 0 {
                    assert(r[i] == ti[i - 1]);
                }
            }
        } else if fs[0].0 == t {
            assert(r =~= seq![(t, d)] + tail);
            assert(r.skip(1) =~= tail);
            assert(entries_map(r) =~= entries_map(fs).insert(t, d));
            assert forall|i: int, j: int| 0 <= i < j < r.len() implies r[i].0 < r[j].0 by {
                assert(r[j] == fs[j]);
                if i > 0 {
                    assert(r[i] == fs[i]);
                }
            }
            assert forall|i: int| 0 <= i < r.len() implies #[trigger] r[i].0 > lo by {
                if i > 0 {
                    assert(r[i] == fs[i]);
                }
            }
        } else {
            assert(r =~= seq![(t, d)] + fs);
            assert(r.skip(1) =~= fs);
            assert forall|i: int, j: int| 0 <= i < j < r.len() implies r[i].0 < r[j].0 by {
                assert(r[j] == fs[j - 1]);
                if i > 0 {
                    assert(r[i] == fs[i - 1]);
                }
            }
            assert forall|i: int| 0 <= i < r.len() implies #[trigger] r[i].0 > lo by {
                if i > 0 {
                    assert(r[i] == fs[i - 1]);
                }
            }
        }
    }
}

proof fn lemma_entries_decode_map(s: Seq<u8>, n: nat)
    ensures
        entries_decode(s, n) is Some <==> raw_entries_decode(s, n) is Some,
        entries_decode(s, n) matches Some((fs, k)) ==> raw_entries_decode(s, n) matches Some((
            rs,
            q,
        )) && q == k && tags_ascending(fs) && entries_map(fs) == inserted_map(rs),
    decreases n,
{
    if n > 0 {
        lemma_entries_decode_map(s, (n - 1) as nat);
        if let Some((fs, k)) = entries_decode(s, (n - 1) as nat) {
            let rs = raw_entries_decode(s, (n - 1) as nat).unwrap().0;
            if let Some(((t, d), m)) = entry_decode(s.skip(k as int)) {
                lemma_insert_map(fs, t, d, -1);
                assert(rs.push((t, d)).drop_last() =~= rs);
            }
        }
    }
}

/// Unknown tags as a map: a trailer reads exactly when its raw entries do,
/// taking the same bytes, and the entries kept are in ascending tag order and,
/// as a map from tag to bytes, are what inserting the raw entries one after
/// another into an empty map gives. With distinct tags that is every entry's
/// bytes under its tag, undecoded.
pub proof fn lemma_trailer_decode_map(s: Seq<u8>)
    ensures
        trailer_decode(s) is Some <==> raw_trailer_decode(s) is Some,
        trailer_decode(s) matches Some((fs, k)) ==> raw_trailer_decode(s) matches Some((rs, q))
            && q == k && tags_ascending(fs) && entries_map(fs) == inserted_map(rs),
{
    reveal(trailer_decode);
    if let Some((n, k)) = UnsignedVarInt.spec_decode(s) {
        lemma_entries_decode_map(s.skip(k as int), n as nat);
    }
}

} // verus!
