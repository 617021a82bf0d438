//! CanonicalTarHeader: a tar header (as its 512 raw bytes) paired with its
//! PAX extensions.

use vstd::prelude::*;
use vstd::utf8::{decode_utf8, encode_utf8, valid_utf8};
use crate::paths::{bytes_start_with, copy_bytes, has_prefix};
use crate::text::{lossy_string, utf8_lossy, utf8_string};
use crate::ustar::{
    lemma_until_nul, cksum_field, header_cksum, is_ustar_header,
    header_entry_type, header_link_name_bytes, header_path_bytes, header_with_cksum,
    header_with_entry_type, header_with_zero_size, ustar_entry_type, ustar_link_name, ustar_path,
    ustar_with_cksum, ustar_with_entry_type, ustar_zero_size, until_nul,
};

verus! {

/// A tar header with the PAX extensions that came with it.
#[derive(Debug)]
pub struct CanonicalTarHeader {
    /// The header block, byte for byte.
    pub header: [u8; 512],
    /// The PAX extension records that precede the entry, in order.
    pub pax_extensions: Vec<(String, String)>,
}

/// The contents of a `CanonicalTarHeader`.
pub struct CanonicalView {
    pub header: Seq<u8>,
    pub pax_extensions: Seq<(Seq<char>, Seq<char>)>,
}

pub open spec fn pax_view(pax: Seq<(String, String)>) -> Seq<(Seq<char>, Seq<char>)> {
    pax.map_values(|e: (String, String)| (e.0@, e.1@))
}

impl View for CanonicalTarHeader {
    type V = CanonicalView;

    open spec fn view(&self) -> CanonicalView {
        CanonicalView { header: self.header@, pax_extensions: pax_view(self.pax_extensions@) }
    }
}

/// Why the PAX extensions of an entry could not be taken.
#[derive(Debug, Clone, Copy)]
pub enum CanonicalError {
    /// A record of the extension block is malformed.
    InvalidPaxExtension,
    /// A record's key is not UTF-8.
    InvalidPaxKey,
    /// A record's value is not UTF-8.
    InvalidPaxValue,
}

impl Clone for CanonicalTarHeader {
    /// A copy of this header and its extensions.
    fn clone(&self) -> (r: Self)
        ensures
            r@ == self@,
    {
        let mut pax: Vec<(String, String)> = Vec::new();
        let mut i: usize = 0;
        while i < self.pax_extensions.len()
            invariant
                i <= self.pax_extensions@.len(),
                pax_view(pax@) == pax_view(self.pax_extensions@).take(i as int),
            decreases self.pax_extensions@.len() - i,
        {
            let k = self.pax_extensions[i].0.clone();
            let v = self.pax_extensions[i].1.clone();
            assert(k@ == self.pax_extensions@[i as int].0@);
            assert(v@ == self.pax_extensions@[i as int].1@);
            let ghost old_pv = pax_view(pax@);
            pax.push((k, v));
            assert(pax_view(pax@) =~= old_pv.push(pax_view(self.pax_extensions@)[i as int]));
            i = i + 1;
            assert(pax_view(pax@) =~= pax_view(self.pax_extensions@).take(i as int));
        }
        assert(pax_view(self.pax_extensions@).take(i as int) =~= pax_view(self.pax_extensions@));
        CanonicalTarHeader { header: self.header, pax_extensions: pax }
    }
}

pub open spec fn record_view(r: Option<(Vec<u8>, Vec<u8>)>) -> Option<(Seq<u8>, Seq<u8>)> {
    match r {
        Some(kv) => Some((kv.0@, kv.1@)),
        None => None,
    }
}

pub open spec fn records_view(rs: Seq<Option<(Vec<u8>, Vec<u8>)>>) -> Seq<Option<(Seq<u8>, Seq<u8>)>> {
    rs.map_values(|r: Option<(Vec<u8>, Vec<u8>)>| record_view(r))
}

/// What `tar::PaxExtensions` yields for a PAX extension block: for each
/// line up to the first empty one, the record's key and value bytes, or
/// nothing for a line it reports malformed.
pub uninterp spec fn pax_records(block: Seq<u8>) -> Seq<Option<(Seq<u8>, Seq<u8>)>>;

/// Runs `tar::PaxExtensions` over a PAX extension block and takes each
/// record's key and value bytes (`None` for a record it reports malformed).
/// Trusted: the records come out in the order the iterator yields them,
/// which is what `pax_records` names; how a line is split into length, key
/// and value is left to the crate.
#[verifier::external_body]
fn parse_pax_block(block: &[u8]) -> (r: Vec<Option<(Vec<u8>, Vec<u8>)>>)
    ensures
        records_view(r@) == pax_records(block@),
{
    tar::PaxExtensions::new(block)
        .map(|rec| rec.ok().map(|e| (e.key_bytes().to_vec(), e.value_bytes().to_vec())))
        .collect()
}

/// The extensions that a sequence of raw PAX records (key and value bytes,
/// or nothing for a malformed record) decode to; the first record that
/// fails decides the error.
pub open spec fn decode_pax(records: Seq<Option<(Seq<u8>, Seq<u8>)>>) -> Result<
    Seq<(Seq<char>, Seq<char>)>,
    CanonicalError,
>
    decreases records.len(),
{
    if records.len() == 0 {
        Ok(Seq::empty())
    } else {
        match decode_pax(records.drop_last()) {
            Err(e) => Err(e),
            Ok(done) => match records.last() {
                None => Err(CanonicalError::InvalidPaxExtension),
                Some(kv) => if !valid_utf8(kv.0) {
                    Err(CanonicalError::InvalidPaxKey)
                } else if !valid_utf8(kv.1) {
                    Err(CanonicalError::InvalidPaxValue)
                } else {
                    Ok(done.push((decode_utf8(kv.0), decode_utf8(kv.1))))
                },
            },
        }
    }
}

/// `i` is the position of the first extension named `key`.
pub open spec fn first_with_key(pax: Seq<(Seq<char>, Seq<char>)>, key: Seq<char>, i: int) -> bool {
    &&& 0 <= i < pax.len()
    &&& pax[i].0 == key
    &&& forall|j: int| 0 <= j < i ==> #[trigger] pax[j].0 != key
}

/// The value of the first extension named `key`, if there is one.
pub open spec fn pax_lookup(pax: Seq<(Seq<char>, Seq<char>)>, key: Seq<char>) -> Option<Seq<char>> {
    if exists|i: int| #[trigger] first_with_key(pax, key, i) {
        Some(pax[choose|i: int| #[trigger] first_with_key(pax, key, i)].1)
    } else {
        None
    }
}

/// The entry path: the PAX `path` extension when present, else the
/// header's own path field.
pub open spec fn canonical_path(c: CanonicalView) -> Seq<u8> {
    match pax_lookup(c.pax_extensions, "path"@) {
        Some(v) => encode_utf8(v),
        None => ustar_path(c.header),
    }
}

/// The link target: the PAX `linkpath` extension when present, else the
/// header's own link-name field.
pub open spec fn canonical_link_name(c: CanonicalView) -> Option<Seq<u8>> {
    match pax_lookup(c.pax_extensions, "linkpath"@) {
        Some(v) => Some(encode_utf8(v)),
        None => ustar_link_name(c.header),
    }
}

proof fn lemma_lookup_found(pax: Seq<(Seq<char>, Seq<char>)>, key: Seq<char>, i: int)
    requires
        first_with_key(pax, key, i),
    ensures
        pax_lookup(pax, key) == Some(pax[i].1),
{
    let c = choose|c: int| #[trigger] first_with_key(pax, key, c);
    assert(first_with_key(pax, key, c));
    if c < i {
        assert(pax[c].0 != key);
    } else if c > i {
        assert(pax[i].0 != key);
    }
}

proof fn lemma_lookup_absent(pax: Seq<(Seq<char>, Seq<char>)>, key: Seq<char>)
    requires
        forall|j: int| 0 <= j < pax.len() ==> #[trigger] pax[j].0 != key,
    ensures
        pax_lookup(pax, key) is None,
{
    assert forall|i: int| !#[trigger] first_with_key(pax, key, i) by {
        if 0 <= i < pax.len() {
            assert(pax[i].0 != key);
        }
    }
}

/// The position of the first extension whose key is `key`.
fn find_pax(pax: &Vec<(String, String)>, key: &String) -> (r: Option<usize>)
    ensures
        match r {
            Some(i) => i < pax@.len() && first_with_key(pax_view(pax@), key@, i as int),
            None => forall|j: int| 0 <= j < pax@.len() ==> #[trigger] pax_view(pax@)[j].0 != key@,
        },
{
    let mut i: usize = 0;
    while i < pax.len()
        invariant
            i <= pax@.len(),
            forall|j: int| 0 <= j < i ==> #[trigger] pax_view(pax@)[j].0 != key@,
        decreases pax@.len() - i,
    {
        if pax[i].0 == *key {
            return Some(i);
        }
        i = i + 1;
    }
    None
}


/// Whether an extension with key `k` stays on a header that is turned into
/// a regular file: `path` and `linkpath` go (the path is given anew), and so
/// do the `GNU.sparse.*` keys (the data is whole).
pub open spec fn kept_for_regular(k: Seq<char>) -> bool {
    &&& k != "path"@
    &&& k != "linkpath"@
    &&& !has_prefix(encode_utf8(k), encode_utf8("GNU.sparse."@))
}

/// The extensions of `pax` that `kept_for_regular` keeps, in order.
pub open spec fn filter_for_regular(pax: Seq<(Seq<char>, Seq<char>)>) -> Seq<(Seq<char>, Seq<char>)>
    decreases pax.len(),
{
    if pax.len() == 0 {
        Seq::empty()
    } else {
        let r = filter_for_regular(pax.drop_last());
        if kept_for_regular(pax.last().0) {
            r.push(pax.last())
        } else {
            r
        }
    }
}

/// The UTF-8 bytes of the lossy text of `b`, as `to_string_lossy` gives it.
pub open spec fn lossy_bytes(b: Seq<u8>) -> Seq<u8> {
    encode_utf8(utf8_lossy(b))
}

/// The PAX records that go before a hard-link entry: `path` when the link
/// path does not fit the 100-byte name field with its NUL (100 bytes or
/// more), then `linkpath` when the target does not fit the link-name field.
pub open spec fn hardlink_pax(link: Seq<u8>, target: Seq<u8>) -> Seq<(Seq<char>, Seq<u8>)> {
    let l = lossy_bytes(link);
    let t = lossy_bytes(target);
    let first = if l.len() >= 100 {
        seq![("path"@, l)]
    } else {
        Seq::empty()
    };
    if t.len() >= 100 {
        first.push(("linkpath"@, t))
    } else {
        first
    }
}

/// Byte `i` of a 100-byte name field that holds `value`: its first (at
/// most 99) bytes, then NULs.
pub open spec fn field_byte(value: Seq<u8>, i: int) -> u8 {
    if i < value.len() && i < 99 {
        value[i]
    } else {
        0u8
    }
}

/// `h` with the 100-byte field at `start` holding the first (at most 99)
/// bytes of `value`, then NULs.
pub open spec fn with_name_field(h: Seq<u8>, start: int, value: Seq<u8>) -> Seq<u8> {
    Seq::new(
        h.len(),
        |i: int|
            if start <= i < start + 100 {
                if i - start < value.len() && i - start < 99 {
                    value[i - start]
                } else {
                    0u8
                }
            } else {
                h[i]
            },
    )
}

/// The header block of a hard-link entry made from `h`: type `'1'`, size
/// zero, the link path in the name field and the target in the link-name
/// field (each cut to 99 bytes), and a fresh checksum.
pub open spec fn hardlink_header_bytes(h: Seq<u8>, link: Seq<u8>, target: Seq<u8>) -> Seq<u8> {
    let fields = with_name_field(
        with_name_field(ustar_zero_size(ustar_with_entry_type(h, 0x31u8)), 0, lossy_bytes(link)),
        157,
        lossy_bytes(target),
    );
    ustar_with_cksum(prefix_cleared(fields))
}

/// `h` with its prefix field cleared when it is a UStar header; other
/// headers (GNU, old-style) keep those bytes, which mean something else there.
pub open spec fn prefix_cleared(h: Seq<u8>) -> Seq<u8> {
    if is_ustar_header(h) {
        without_prefix(h)
    } else {
        h
    }
}

/// `h` with the UStar prefix field (bytes 345 to 500) cleared, so that the
/// name field alone is the path.
pub open spec fn without_prefix(h: Seq<u8>) -> Seq<u8> {
    Seq::new(h.len(), |i: int| if 345 <= i < 500 { 0u8 } else { h[i] })
}

fn has_ustar_magic(h: &[u8; 512]) -> (r: bool)
    ensures
        r == is_ustar_header(h@),
{
    let r = h[257] == 0x75 && h[258] == 0x73 && h[259] == 0x74 && h[260] == 0x61 && h[261] == 0x72
        && h[262] == 0 && h[263] == 0x30 && h[264] == 0x30;
    if r {
        assert(h@.subrange(257, 263) =~= seq![0x75u8, 0x73u8, 0x74u8, 0x61u8, 0x72u8, 0u8]);
        assert(h@.subrange(263, 265) =~= seq![0x30u8, 0x30u8]);
    } else {
        proof {
            if is_ustar_header(h@) {
                assert(h@.subrange(257, 263)[0] == h@[257]);
                assert(h@.subrange(257, 263)[1] == h@[258]);
                assert(h@.subrange(257, 263)[2] == h@[259]);
                assert(h@.subrange(257, 263)[3] == h@[260]);
                assert(h@.subrange(257, 263)[4] == h@[261]);
                assert(h@.subrange(257, 263)[5] == h@[262]);
                assert(h@.subrange(263, 265)[0] == h@[263]);
                assert(h@.subrange(263, 265)[1] == h@[264]);
            }
        }
    }
    r
}

/// Clears the UStar prefix field of a UStar header.
fn clear_ustar_prefix(h: [u8; 512]) -> (r: [u8; 512])
    ensures
        r@ == prefix_cleared(h@),
{
    if !has_ustar_magic(&h) {
        return h;
    }
    let mut h = h;
    let ghost h0 = h@;
    let mut j: usize = 345;
    while j < 500
        invariant
            h@.len() == 512,
            345 <= j <= 500,
            forall|i: int| 0 <= i < 512 && !(345 <= i < j) ==> h@[i] == h0[i],
            forall|i: int| 345 <= i < j ==> h@[i] == 0u8,
        decreases 500 - j,
    {
        h[j] = 0;
        j = j + 1;
    }
    assert(h@ =~= without_prefix(h0));
    h
}

/// Byte by byte, the header block that `hardlink_header_bytes` describes.
proof fn lemma_hardlink_header_layout(h: Seq<u8>, link: Seq<u8>, target: Seq<u8>)
    requires
        h.len() == 512,
    ensures
        ({
            let hb = hardlink_header_bytes(h, link, target);
            &&& hb.len() == 512
            &&& forall|i: int| 0 <= i < 100 ==> #[trigger] hb[i] == field_byte(lossy_bytes(link), i)
            &&& forall|i: int|
                157 <= i < 257 ==> #[trigger] hb[i] == field_byte(lossy_bytes(target), i - 157)
            &&& hb[156] == 0x31u8
            &&& is_ustar_header(hb) == is_ustar_header(h)
            &&& is_ustar_header(h) ==> forall|i: int| 345 <= i < 500 ==> #[trigger] hb[i] == 0u8
        }),
{
    let l = lossy_bytes(link);
    let t = lossy_bytes(target);
    let typed = ustar_with_entry_type(h, 0x31u8);
    let sized = ustar_zero_size(typed);
    let named = with_name_field(sized, 0, l);
    let fields = with_name_field(named, 157, t);
    let pc = prefix_cleared(fields);
    let hb = hardlink_header_bytes(h, link, target);
    assert(hb == ustar_with_cksum(pc));
    assert(fields.subrange(257, 263) =~= h.subrange(257, 263));
    assert(fields.subrange(263, 265) =~= h.subrange(263, 265));
    assert(hb.subrange(257, 263) =~= h.subrange(257, 263));
    assert(hb.subrange(263, 265) =~= h.subrange(263, 265));
    assert forall|i: int| 0 <= i < 100 implies #[trigger] hb[i] == field_byte(l, i) by {
        assert(hb[i] == pc[i]);
        assert(pc[i] == fields[i]);
        assert(fields[i] == named[i]);
    }
    assert forall|i: int| 157 <= i < 257 implies #[trigger] hb[i] == field_byte(t, i - 157) by {
        assert(hb[i] == pc[i]);
        assert(pc[i] == fields[i]);
    }
    assert(hb[156] == pc[156]);
    assert(pc[156] == fields[156]);
    assert(fields[156] == named[156]);
    assert(named[156] == sized[156]);
    assert(sized[156] == typed[156]);
    if is_ustar_header(h) {
        assert forall|i: int| 345 <= i < 500 implies #[trigger] hb[i] == 0u8 by {
            assert(hb[i] == pc[i]);
        }
    }
}

/// The PAX records of `hardlink_pax` as a reader hands them back: each key
/// and value as bytes.
pub open spec fn written_pax_records(link: Seq<u8>, target: Seq<u8>) -> Seq<Option<(Seq<u8>, Seq<u8>)>> {
    hardlink_pax(link, target).map_values(|e: (Seq<char>, Seq<u8>)| Some((encode_utf8(e.0), e.1)))
}

/// A hard-link entry reads back as it was written: decoding its PAX records
/// as `from_raw_parts` does and reading its header block gives the link path
/// as the entry path (whatever its length, and whatever prefix the source
/// UStar header had), the target as the link name, and the hard-link type.
/// A path of 100 bytes or more travels whole in its PAX record, whatever
/// bytes it holds.  A shorter one lives in a header field, where a NUL byte
/// ends it and an empty link name means no link, so a short path with a NUL
/// byte and an empty target are left out.
pub proof fn law_hardlink_reads_back(h: Seq<u8>, link: Seq<u8>, target: Seq<u8>)
    requires
        h.len() == 512,
        lossy_bytes(link).len() < 100 ==> forall|i: int|
            0 <= i < lossy_bytes(link).len() ==> #[trigger] lossy_bytes(link)[i] != 0u8,
        lossy_bytes(target).len() < 100 ==> forall|i: int|
            0 <= i < lossy_bytes(target).len() ==> #[trigger] lossy_bytes(target)[i] != 0u8,
        lossy_bytes(target).len() > 0,
    ensures
        match decode_pax(written_pax_records(link, target)) {
            Ok(exts) => {
                let c = CanonicalView {
                    header: hardlink_header_bytes(h, link, target),
                    pax_extensions: exts,
                };
                &&& canonical_path(c) == lossy_bytes(link)
                &&& canonical_link_name(c) == Some(lossy_bytes(target))
                &&& ustar_entry_type(c.header) == 0x31u8
            },
            Err(_) => false,
        },
{
    broadcast use vstd::utf8::encode_utf8_valid_utf8, vstd::utf8::encode_utf8_decode_utf8;

    reveal_strlit("path");
    reveal_strlit("linkpath");
    let l = lossy_bytes(link);
    let t = lossy_bytes(target);
    let hb = hardlink_header_bytes(h, link, target);
    lemma_hardlink_header_layout(h, link, target);
    vstd::utf8::decode_utf8_encode_utf8(l);
    vstd::utf8::decode_utf8_encode_utf8(t);
    let pax = hardlink_pax(link, target);
    let recs = written_pax_records(link, target);
    let exts = pax.map_values(|e: (Seq<char>, Seq<u8>)| (e.0, decode_utf8(e.1)));
    // The records decode, one by one, to the extensions that were written.
    assert forall|k: int| 0 <= k <= recs.len() implies decode_pax(#[trigger] recs.take(k))
        == Ok::<_, CanonicalError>(exts.take(k)) by {
        lemma_decode_written_prefix(link, target, k);
    }
    assert(recs.take(recs.len() as int) =~= recs);
    assert(exts.take(exts.len() as int) =~= exts);
    assert(decode_pax(recs) == Ok::<_, CanonicalError>(exts));
    let c = CanonicalView { header: hb, pax_extensions: exts };
    // The path.
    if l.len() >= 100 {
        assert(first_with_key(exts, "path"@, 0));
        lemma_lookup_found(exts, "path"@, 0);
    } else {
        assert forall|j: int| 0 <= j < exts.len() implies #[trigger] exts[j].0 != "path"@ by {
            assert(exts[j].0 == "linkpath"@);
            assert("linkpath"@.len() != "path"@.len());
        }
        lemma_lookup_absent(exts, "path"@);
        let name = hb.subrange(0, 100);
        assert forall|i: int| 0 <= i < l.len() implies name[i] != 0 && name[i] == l[i] by {
            assert(hb[i] == field_byte(l, i));
        }
        assert(name[l.len() as int] == hb[l.len() as int]);
        lemma_until_nul(name, l.len() as int);
        assert(name.take(l.len() as int) =~= l);
        if is_ustar_header(hb) {
            assert(hb.subrange(345, 500)[0] == hb[345]);
            let p = until_nul(hb.subrange(345, 500));
            assert(p =~= Seq::<u8>::empty());
        }
    }
    // The link name.
    if t.len() >= 100 {
        let idx: int = if l.len() >= 100 { 1 } else { 0 };
        assert(exts[idx].0 == "linkpath"@);
        if idx == 1 {
            assert(exts[0].0 == "path"@);
            assert("linkpath"@.len() != "path"@.len());
        }
        assert(first_with_key(exts, "linkpath"@, idx));
        lemma_lookup_found(exts, "linkpath"@, idx);
    } else {
        assert forall|j: int| 0 <= j < exts.len() implies #[trigger] exts[j].0 != "linkpath"@ by {
            assert(exts[j].0 == "path"@);
            assert("linkpath"@.len() != "path"@.len());
        }
        lemma_lookup_absent(exts, "linkpath"@);
        let field = hb.subrange(157, 257);
        assert forall|i: int| 0 <= i < t.len() implies field[i] != 0 && field[i] == t[i] by {
            assert(hb[157 + i] == field_byte(t, i));
        }
        assert(field[t.len() as int] == hb[157 + t.len() as int]);
        lemma_until_nul(field, t.len() as int);
        assert(field.take(t.len() as int) =~= t);
        assert(hb[157] == field_byte(t, 0));
    }
}

/// The first `k` written records decode to the first `k` extensions.
proof fn lemma_decode_written_prefix(link: Seq<u8>, target: Seq<u8>, k: int)
    requires
        0 <= k <= hardlink_pax(link, target).len(),
    ensures
        decode_pax(written_pax_records(link, target).take(k)) == Ok::<_, CanonicalError>(
            hardlink_pax(link, target).map_values(
                |e: (Seq<char>, Seq<u8>)| (e.0, decode_utf8(e.1)),
            ).take(k),
        ),
    decreases k,
{
    broadcast use vstd::utf8::encode_utf8_valid_utf8, vstd::utf8::encode_utf8_decode_utf8;

    let pax = hardlink_pax(link, target);
    let recs = written_pax_records(link, target);
    let exts = pax.map_values(|e: (Seq<char>, Seq<u8>)| (e.0, decode_utf8(e.1)));
    if k == 0 {
        assert(recs.take(0) =~= Seq::<Option<(Seq<u8>, Seq<u8>)>>::empty());
        assert(exts.take(0) =~= Seq::<(Seq<char>, Seq<char>)>::empty());
    } else {
        lemma_decode_written_prefix(link, target, k - 1);
        assert(recs.take(k).drop_last() =~= recs.take(k - 1));
        assert(recs.take(k).last() == Some((encode_utf8(pax[k - 1].0), pax[k - 1].1)));
        let l = lossy_bytes(link);
        let t = lossy_bytes(target);
        assert(pax[k - 1].1 == l || pax[k - 1].1 == t);
        assert(valid_utf8(pax[k - 1].1));
        assert(exts.take(k) =~= exts.take(k - 1).push(exts[k - 1]));
    }
}

/// After promotion to a regular file no `path` or `linkpath` extension is
/// left to override the path given at emit time, and no `GNU.sparse.*` one.
pub proof fn law_regular_clone_has_no_overrides(pax: Seq<(Seq<char>, Seq<char>)>)
    ensures
        pax_lookup(filter_for_regular(pax), "path"@) is None,
        pax_lookup(filter_for_regular(pax), "linkpath"@) is None,
        forall|i: int|
            0 <= i < filter_for_regular(pax).len() ==> kept_for_regular(
                #[trigger] filter_for_regular(pax)[i].0,
            ),
    decreases pax.len(),
{
    if pax.len() > 0 {
        law_regular_clone_has_no_overrides(pax.drop_last());
    }
    let f = filter_for_regular(pax);
    assert forall|i: int| 0 <= i < f.len() implies kept_for_regular(#[trigger] f[i].0) by {
        if pax.len() > 0 && i == f.len() - 1 && kept_for_regular(pax.last().0) {
        } else if pax.len() > 0 {
            assert(f[i] == filter_for_regular(pax.drop_last())[i]);
        }
    }
    lemma_lookup_absent(f, "path"@);
    lemma_lookup_absent(f, "linkpath"@);
}

/// The regular clone keeps, in order, exactly the extensions whose key is
/// not `path`, not `linkpath` and does not begin with `GNU.sparse.`; every
/// other extension (`mtime`, `SCHILY.xattr.*`, ...) stays.
pub proof fn law_regular_clone_keeps_other_extensions(pax: Seq<(Seq<char>, Seq<char>)>)
    ensures
        filter_for_regular(pax) == pax.filter(
            |e: (Seq<char>, Seq<char>)|
                e.0 != "path"@ && e.0 != "linkpath"@ && !(encode_utf8("GNU.sparse."@).len()
                    <= encode_utf8(e.0).len() && encode_utf8(e.0).take(
                    encode_utf8("GNU.sparse."@).len() as int,
                ) == encode_utf8("GNU.sparse."@)),
        ),
    decreases pax.len(),
{
    reveal(Seq::filter);
    if pax.len() > 0 {
        law_regular_clone_keeps_other_extensions(pax.drop_last());
    }
}

/// The regular clone reads back as a regular file.
pub proof fn law_regular_clone_is_regular(header: Seq<u8>)
    requires
        header.len() == 512,
    ensures
        ustar_entry_type(ustar_with_entry_type(header, 0x30u8)) == 0x30u8,
{
}

/// What is written for a hard link: the PAX records that go before it, and
/// its header block.
pub struct HardlinkHeader {
    pub pax_extensions: Vec<(String, Vec<u8>)>,
    pub header: [u8; 512],
}

fn write_name_field(h: [u8; 512], start: usize, value: &[u8]) -> (r: [u8; 512])
    requires
        start + 100 <= 512,
    ensures
        r@ == with_name_field(h@, start as int, value@),
{
    let mut h = h;
    let ghost h0 = h@;
    let mut j: usize = 0;
    while j < 100
        invariant
            start + 100 <= 512,
            h@.len() == 512,
            j <= 100,
            forall|i: int| 0 <= i < 512 && !(start <= i < start + j) ==> h@[i] == h0[i],
            forall|i: int| start <= i < start + j ==> h@[i] == 0u8,
        decreases 100 - j,
    {
        h[start + j] = 0;
        j = j + 1;
    }
    let len = if value.len() < 99 { value.len() } else { 99 };
    let mut k: usize = 0;
    while k < len
        invariant
            start + 100 <= 512,
            h@.len() == 512,
            len <= 99,
            len <= value@.len(),
            k <= len,
            forall|i: int| 0 <= i < 512 && !(start <= i < start + 100) ==> h@[i] == h0[i],
            forall|i: int| start + k <= i < start + 100 ==> h@[i] == 0u8,
            forall|i: int| start <= i < start + k ==> h@[i] == value@[i - start],
        decreases len - k,
    {
        h[start + k] = value[k];
        k = k + 1;
    }
    assert(h@ =~= with_name_field(h0, start as int, value@));
    h
}

impl CanonicalTarHeader {
    /// Builds the canonical header from the raw header block and the raw PAX
    /// records read for the entry (`None` when the entry has none).
    pub fn from_raw_parts(
        header: [u8; 512],
        pax_records: Option<Vec<Option<(Vec<u8>, Vec<u8>)>>>,
    ) -> (r: Result<Self, CanonicalError>)
        ensures
            match pax_records {
                None => r matches Ok(c) && c@ == (CanonicalView { header: header@, pax_extensions: Seq::empty() }),
                Some(records) => match decode_pax(records_view(records@)) {
                    Ok(exts) => r matches Ok(c) && c@ == (CanonicalView { header: header@, pax_extensions: exts }),
                    Err(e) => r == Err::<Self, CanonicalError>(e),
                },
            },
    {
        match pax_records {
            None => {
                let c = CanonicalTarHeader { header, pax_extensions: Vec::new() };
                assert(c@.pax_extensions =~= Seq::empty());
                Ok(c)
            },
            Some(records) => {
                let ghost rv = records_view(records@);
                let mut pairs: Vec<(String, String)> = Vec::new();
                let mut i: usize = 0;
                assert(rv.take(0) =~= Seq::<Option<(Seq<u8>, Seq<u8>)>>::empty());
                assert(pax_view(pairs@) =~= Seq::<(Seq<char>, Seq<char>)>::empty());
                while i < records.len()
                    invariant
                        rv == records_view(records@),
                        pax_records == Some(records),
                        i <= records@.len(),
                        decode_pax(rv.take(i as int)) == Ok::<_, CanonicalError>(pax_view(pairs@)),
                    decreases records@.len() - i,
                {
                    assert(rv.take(i as int + 1).drop_last() =~= rv.take(i as int));
                    assert(rv.take(i as int + 1).last() == record_view(records@[i as int]));
                    match &records[i] {
                        None => {
                            proof { lemma_decode_err_stays(rv, i as int + 1); }
                            return Err(CanonicalError::InvalidPaxExtension);
                        },
                        Some(kv) => {
                            let key = match utf8_string(kv.0.as_slice()) {
                                Some(k) => k,
                                None => {
                                    proof { lemma_decode_err_stays(rv, i as int + 1); }
                                    return Err(CanonicalError::InvalidPaxKey);
                                },
                            };
                            let value = match utf8_string(kv.1.as_slice()) {
                                Some(v) => v,
                                None => {
                                    proof { lemma_decode_err_stays(rv, i as int + 1); }
                                    return Err(CanonicalError::InvalidPaxValue);
                                },
                            };
                            pairs.push((key, value));
                            assert(pax_view(pairs@) =~= match decode_pax(rv.take(i as int + 1)) {
                                Ok(d) => d,
                                Err(_) => Seq::empty(),
                            });
                        },
                    }
                    i = i + 1;
                }
                assert(rv.take(i as int) =~= rv);
                Ok(CanonicalTarHeader { header, pax_extensions: pairs })
            },
        }
    }

    /// Builds the canonical header of an entry from its header block and the
    /// PAX extension block that goes with it (`None` when it has none):
    /// the block's records are parsed by the `tar` crate and decoded as
    /// `from_raw_parts` decodes them.
    pub fn from_header_and_pax_block(header: [u8; 512], pax_block: Option<&[u8]>) -> (r: Result<
        Self,
        CanonicalError,
    >)
        ensures
            match pax_block {
                None => r matches Ok(c) && c@ == (CanonicalView { header: header@, pax_extensions: Seq::empty() }),
                Some(b) => match decode_pax(pax_records(b@)) {
                    Ok(exts) => r matches Ok(c) && c@ == (CanonicalView { header: header@, pax_extensions: exts }),
                    Err(e) => r == Err::<Self, CanonicalError>(e),
                },
            },
    {
        match pax_block {
            None => Self::from_raw_parts(header, None),
            Some(b) => Self::from_raw_parts(header, Some(parse_pax_block(b))),
        }
    }

    /// Return a clone of this header suitable for emitting a regular file at
    /// a caller-supplied path (a surviving hard link promoted to a real file
    /// because its target was whited out): the entry type becomes regular,
    /// the `path` and `linkpath` extensions are dropped (the path is given
    /// anew) and so are the `GNU.sparse.*` ones (the data is whole).
    pub fn clone_as_regular(&self) -> (r: Self)
        ensures
            r@ == (CanonicalView {
                header: ustar_with_entry_type(self.header@, 0x30u8),
                pax_extensions: filter_for_regular(self@.pax_extensions),
            }),
    {
        let path_key = "path".to_owned();
        let link_key = "linkpath".to_owned();
        let sparse: &str = "GNU.sparse.";
        let ghost pv = self@.pax_extensions;
        let mut pax: Vec<(String, String)> = Vec::new();
        let mut i: usize = 0;
        assert(pv.take(0) =~= Seq::<(Seq<char>, Seq<char>)>::empty());
        assert(pax_view(pax@) =~= Seq::<(Seq<char>, Seq<char>)>::empty());
        while i < self.pax_extensions.len()
            invariant
                pv == self@.pax_extensions,
                path_key@ == "path"@,
                link_key@ == "linkpath"@,
                sparse@ == "GNU.sparse."@,
                i <= pv.len(),
                pax_view(pax@) == filter_for_regular(pv.take(i as int)),
            decreases pv.len() - i,
        {
            assert(pv.take(i as int + 1).drop_last() =~= pv.take(i as int));
            assert(pv.take(i as int + 1).last() == pv[i as int]);
            let k = &self.pax_extensions[i].0;
            let sparse_key = bytes_start_with(k.as_str().as_bytes(), sparse.as_bytes());
            if !(*k == path_key) && !(*k == link_key) && !sparse_key {
                let ghost old_pv = pax_view(pax@);
                pax.push((k.clone(), self.pax_extensions[i].1.clone()));
                assert(pax_view(pax@) =~= old_pv.push(pv[i as int]));
            }
            i = i + 1;
        }
        assert(pv.take(i as int) =~= pv);
        let header = header_with_entry_type(&self.header, 0x30);
        CanonicalTarHeader { header, pax_extensions: pax }
    }

    /// The PAX records and header block of a hard-link entry from
    /// `link_path` to `target_path` that takes its inode metadata (mode,
    /// owner, times) from this header.  A path of 100 bytes or more, which
    /// the name field cannot hold with its NUL, is carried whole in a PAX
    /// `path` / `linkpath` record, to be written right before the header;
    /// the header's own name fields hold the paths cut to 99 bytes.  The
    /// size is zero, a UStar prefix is cleared (the name field alone is the
    /// path), and the checksum is computed afresh.
    pub fn hardlink_header(&self, link_path: &[u8], target_path: &[u8]) -> (r: HardlinkHeader)
        ensures
            r.pax_extensions@.map_values(|e: (String, Vec<u8>)| (e.0@, e.1@)) == hardlink_pax(
                link_path@,
                target_path@,
            ),
            r.header@ == hardlink_header_bytes(self.header@, link_path@, target_path@),
            ustar_entry_type(r.header@) == 0x31u8,
            forall|i: int|
                0 <= i < 100 ==> #[trigger] r.header@[i] == field_byte(lossy_bytes(link_path@), i),
            forall|i: int| 124 <= i < 135 ==> #[trigger] r.header@[i] == 0x30u8,
            r.header@[135] == 0u8,
            r.header@.subrange(148, 156) == cksum_field(header_cksum(r.header@)),
            forall|i: int|
                157 <= i < 257 ==> #[trigger] r.header@[i] == field_byte(
                    lossy_bytes(target_path@),
                    i - 157,
                ),
            is_ustar_header(r.header@) == is_ustar_header(self.header@),
            is_ustar_header(self.header@) ==> forall|i: int| 345 <= i < 500 ==> #[trigger] r.header@[i] == 0u8,
            forall|i: int|
                100 <= i < 512 && !(124 <= i < 136) && !(148 <= i < 257) && !(is_ustar_header(
                    self.header@,
                ) && 345 <= i < 500) ==> #[trigger] r.header@[i] == self.header@[i],
            ({
                let t = lossy_bytes(target_path@);
                0 < t.len() <= 99 && (forall|i: int| 0 <= i < t.len() ==> t[i] != 0) ==> ustar_link_name(
                    r.header@,
                ) == Some(t)
            }),
    {
        let link_str = lossy_string(link_path);
        let target_str = lossy_string(target_path);
        let link_bytes = link_str.as_str().as_bytes();
        let target_bytes = target_str.as_str().as_bytes();
        let mut pax: Vec<(String, Vec<u8>)> = Vec::new();
        // Paths that do not fit a 100-byte field with its NUL go whole into
        // PAX records, which must be written right before the entry.
        if link_bytes.len() >= 100 {
            pax.push(("path".to_owned(), copy_bytes(link_bytes)));
        }
        if target_bytes.len() >= 100 {
            pax.push(("linkpath".to_owned(), copy_bytes(target_bytes)));
        }
        assert(pax@.map_values(|e: (String, Vec<u8>)| (e.0@, e.1@)) =~= hardlink_pax(
            link_path@,
            target_path@,
        ));
        let typed = header_with_entry_type(&self.header, 0x31);
        let sized = header_with_zero_size(&typed);
        let named = write_name_field(sized, 0, link_bytes);
        let linked = write_name_field(named, 157, target_bytes);
        // The name field alone carries the path: a prefix left from the
        // source header would be read in front of it.
        let cleared = clear_ustar_prefix(linked);
        let header = header_with_cksum(&cleared);
        proof {
            let t = lossy_bytes(target_path@);
            assert(linked@.subrange(257, 265) =~= self.header@.subrange(257, 265));
            assert(linked@.subrange(257, 263) =~= self.header@.subrange(257, 263));
            assert(linked@.subrange(263, 265) =~= self.header@.subrange(263, 265));
            assert(header@.subrange(257, 263) =~= self.header@.subrange(257, 263));
            assert(header@.subrange(263, 265) =~= self.header@.subrange(263, 265));
            assert(header@.subrange(0, 148) =~= cleared@.subrange(0, 148));
            assert(header@.subrange(156, 512) =~= cleared@.subrange(156, 512));
            assert(header_cksum(header@) == header_cksum(cleared@));
            assert(header@.subrange(148, 156) =~= cksum_field(header_cksum(header@)));
            assert forall|i: int|
                100 <= i < 512 && !(124 <= i < 136) && !(148 <= i < 257) && !(is_ustar_header(
                    self.header@,
                ) && 345 <= i < 500) implies #[trigger] header@[i] == self.header@[i] by {
                assert(header@[i] == cleared@[i]);
                assert(cleared@[i] == linked@[i]);
                assert(linked@[i] == named@[i]);
                assert(named@[i] == sized@[i]);
                assert(sized@[i] == typed@[i]);
            }
            assert forall|i: int| 0 <= i < 100 implies #[trigger] header@[i] == field_byte(lossy_bytes(link_path@), i) by {
                assert(header@[i] == cleared@[i]);
                assert(cleared@[i] == linked@[i]);
                assert(linked@[i] == named@[i]);
            }
            assert forall|i: int| 124 <= i < 135 implies #[trigger] header@[i] == 0x30u8 by {
                assert(header@[i] == cleared@[i]);
                assert(cleared@[i] == linked@[i]);
                assert(linked@[i] == named@[i]);
                assert(named@[i] == sized@[i]);
            }
            assert(header@[135] == sized@[135]);
            assert forall|i: int| 157 <= i < 257 implies #[trigger] header@[i] == field_byte(lossy_bytes(target_path@), i - 157) by {
                assert(header@[i] == cleared@[i]);
                assert(cleared@[i] == linked@[i]);
            }
            assert(header@[156] == cleared@[156]);
            assert(cleared@[156] == linked@[156]);
            assert(linked@[156] == named@[156]);
            assert(named@[156] == sized@[156]);
            assert(sized@[156] == typed@[156]);
            if 0 < t.len() <= 99 && (forall|i: int| 0 <= i < t.len() ==> t[i] != 0) {
                let field = header@.subrange(157, 257);
                assert forall|i: int| 0 <= i < 100 implies field[i] == linked@[157 + i] by {
                    assert(header@[157 + i] == cleared@[157 + i]);
                }
                assert forall|i: int| 0 <= i < t.len() implies field[i] != 0 && field[i] == t[i] by {}
                assert(field[t.len() as int] == 0);
                lemma_until_nul(field, t.len() as int);
                assert(field.take(t.len() as int) =~= t);
                assert(header@[157] == t[0]);
            }
        }
        HardlinkHeader { pax_extensions: pax, header }
    }

    /// Return the entry path, preferring the PAX `path` extension over the
    /// USTAR header field.  The USTAR name field is limited to 100 bytes, so
    /// longer paths are only whole in the PAX extension.
    pub fn path(&self) -> (r: Vec<u8>)
        ensures
            r@ == canonical_path(self@),
    {
        let key = "path".to_owned();
        match find_pax(&self.pax_extensions, &key) {
            Some(i) => {
                proof { lemma_lookup_found(self@.pax_extensions, key@, i as int); }
                copy_bytes(self.pax_extensions[i].1.as_str().as_bytes())
            },
            None => {
                proof { lemma_lookup_absent(self@.pax_extensions, key@); }
                header_path_bytes(&self.header)
            },
        }
    }

    /// The entry type byte of the header (`'0'` for a regular file, `'1'`
    /// for a hard link, `'2'` for a symlink, `'5'` for a directory, ...).
    pub fn entry_type(&self) -> (r: u8)
        ensures
            r == ustar_entry_type(self.header@),
    {
        header_entry_type(&self.header)
    }

    /// Return the link target path, preferring the PAX `linkpath` extension
    /// over the USTAR header field, whose 100 bytes truncate longer targets.
    pub fn link_name(&self) -> (r: Option<Vec<u8>>)
        ensures
            match r {
                Some(v) => canonical_link_name(self@) == Some(v@),
                None => canonical_link_name(self@) is None,
            },
    {
        let key = "linkpath".to_owned();
        match find_pax(&self.pax_extensions, &key) {
            Some(i) => {
                proof { lemma_lookup_found(self@.pax_extensions, key@, i as int); }
                Some(copy_bytes(self.pax_extensions[i].1.as_str().as_bytes()))
            },
            None => {
                proof { lemma_lookup_absent(self@.pax_extensions, key@); }
                header_link_name_bytes(&self.header)
            },
        }
    }
}

proof fn lemma_decode_err_stays(rv: Seq<Option<(Seq<u8>, Seq<u8>)>>, k: int)
    requires
        0 <= k <= rv.len(),
        decode_pax(rv.take(k)) is Err,
    ensures
        decode_pax(rv) == decode_pax(rv.take(k)),
    decreases rv.len() - k,
{
    if k < rv.len() {
        assert(rv.take(k + 1).drop_last() =~= rv.take(k));
        lemma_decode_err_stays(rv, k + 1);
    } else {
        assert(rv.take(k) =~= rv);
    }
}

} // verus!
