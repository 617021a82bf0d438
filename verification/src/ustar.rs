//! The 512-byte tar header, read and updated through the `tar` crate.

use vstd::prelude::*;

verus! {

/// The bytes of `s` up to its first NUL byte (all of `s` if it has none).
pub open spec fn until_nul(s: Seq<u8>) -> Seq<u8>
    decreases s.len(),
{
    if s.len() == 0 {
        s
    } else if s[0] == 0 {
        Seq::empty()
    } else {
        seq![s[0]] + until_nul(s.drop_first())
    }
}

/// The header carries the UStar magic `"ustar\0"` and version `"00"`
/// (bytes 257 to 265), as `tar::Header::as_ustar` checks.
pub open spec fn is_ustar_header(header: Seq<u8>) -> bool {
    &&& header.subrange(257, 263) == seq![0x75u8, 0x73u8, 0x74u8, 0x61u8, 0x72u8, 0u8]
    &&& header.subrange(263, 265) == seq![0x30u8, 0x30u8]
}

/// The path that `tar::Header::path_bytes` reads from a header: for a UStar
/// header whose prefix field (bytes 345 to 500) is in use, or whose name
/// field holds a `\`, the prefix up to its NUL, a `/` when that is not
/// empty, and the name up to its NUL; otherwise the name field up to its NUL.
pub open spec fn ustar_path(header: Seq<u8>) -> Seq<u8> {
    let name = header.subrange(0, 100);
    if is_ustar_header(header) {
        let prefix = header.subrange(345, 500);
        if prefix[0] == 0 && !name.contains(0x5cu8) {
            until_nul(name)
        } else {
            let p = until_nul(prefix);
            (if p.len() > 0 {
                p.push(0x2fu8)
            } else {
                Seq::empty()
            }) + until_nul(name)
        }
    } else {
        until_nul(name)
    }
}

/// The sum of the bytes of `s`.
pub open spec fn byte_sum(s: Seq<u8>) -> nat
    decreases s.len(),
{
    if s.len() == 0 {
        0
    } else {
        byte_sum(s.drop_last()) + s.last() as nat
    }
}

/// The header checksum: the sum of all header bytes, the eight bytes of the
/// checksum field (148 to 156) counted as spaces.
pub open spec fn header_cksum(header: Seq<u8>) -> nat {
    byte_sum(header.subrange(0, 148)) + 8 * 0x20 + byte_sum(header.subrange(156, 512))
}

pub open spec fn pow8(n: nat) -> nat
    decreases n,
{
    if n == 0 {
        1
    } else {
        8 * pow8((n - 1) as nat)
    }
}

/// The eight bytes that `tar` writes for a checksum `v`: its last seven
/// octal digits as ASCII, then a NUL.
pub open spec fn cksum_field(v: nat) -> Seq<u8> {
    Seq::new(
        8,
        |i: int|
            if i < 7 {
                (0x30 + (v / pow8((6 - i) as nat)) % 8) as u8
            } else {
                0u8
            },
    )
}

/// The header that `tar::Header::set_cksum` leaves: the checksum of the
/// other bytes written into the checksum field, nothing else changed.
pub open spec fn ustar_with_cksum(header: Seq<u8>) -> Seq<u8> {
    Seq::new(
        header.len(),
        |i: int|
            if 148 <= i < 156 {
                cksum_field(header_cksum(header))[i - 148]
            } else {
                header[i]
            },
    )
}

/// The link target that `tar::Header::link_name_bytes` reads: the link-name
/// field (bytes 157 to 257) up to its first NUL, or nothing when that field
/// starts with NUL.
pub open spec fn ustar_link_name(header: Seq<u8>) -> Option<Seq<u8>> {
    if header[157] != 0 {
        Some(until_nul(header.subrange(157, 257)))
    } else {
        None
    }
}

/// The entry-type byte that `tar::Header::entry_type` reports, as given by
/// `EntryType::as_byte`: the type-flag byte (offset 156), with NUL read as
/// a regular file (`'0'`).
pub open spec fn ustar_entry_type(header: Seq<u8>) -> u8 {
    if header[156] == 0 {
        0x30u8
    } else {
        header[156]
    }
}

/// The header with its type-flag byte set as `tar::Header::set_entry_type`
/// sets it for `EntryType::new(ty)`.
pub open spec fn ustar_with_entry_type(header: Seq<u8>, ty: u8) -> Seq<u8> {
    header.update(156, if ty == 0 { 0x30u8 } else { ty })
}

/// The header with a size of zero written as `tar::Header::set_size(0)`
/// writes it: eleven ASCII `'0'` digits and a NUL in bytes 124 to 136.
pub open spec fn ustar_zero_size(header: Seq<u8>) -> Seq<u8> {
    Seq::new(
        header.len(),
        |i: int|
            if 124 <= i < 135 {
                0x30u8
            } else if i == 135 {
                0u8
            } else {
                header[i]
            },
    )
}

/// Calls `tar::Header::path_bytes` on the header.  Trusted: as its source
/// shows, the header's path as `ustar_path` spells it out.
#[verifier::external_body]
pub(crate) fn header_path_bytes(header: &[u8; 512]) -> (r: Vec<u8>)
    ensures
        r@ == ustar_path(header@),
{
    tar::Header::from_byte_slice(header).path_bytes().into_owned()
}

/// Calls `tar::Header::link_name_bytes` on the header.  Trusted: as its
/// source shows, the link-name field up to its first NUL, if it does not
/// start with NUL.
#[verifier::external_body]
pub(crate) fn header_link_name_bytes(header: &[u8; 512]) -> (r: Option<Vec<u8>>)
    ensures
        match r {
            Some(v) => ustar_link_name(header@) == Some(v@),
            None => ustar_link_name(header@) is None,
        },
{
    tar::Header::from_byte_slice(header).link_name_bytes().map(|b| b.into_owned())
}

/// Calls `tar::Header::entry_type` and `EntryType::as_byte`.  Trusted: as
/// their source shows, the type-flag byte, NUL read as `'0'`.
#[verifier::external_body]
pub(crate) fn header_entry_type(header: &[u8; 512]) -> (r: u8)
    ensures
        r == ustar_entry_type(header@),
{
    tar::Header::from_byte_slice(header).entry_type().as_byte()
}

/// Calls `tar::Header::set_entry_type` with `EntryType::new(ty)` on a copy
/// of the header.  Trusted: as their source shows, only the type-flag byte
/// changes, to `ty` (NUL becomes `'0'`).
#[verifier::external_body]
pub(crate) fn header_with_entry_type(header: &[u8; 512], ty: u8) -> (r: [u8; 512])
    ensures
        r@ == ustar_with_entry_type(header@, ty),
{
    let mut h = tar::Header::from_byte_slice(header).clone();
    h.set_entry_type(tar::EntryType::new(ty));
    *h.as_bytes()
}

/// Calls `tar::Header::set_size(0)` on a copy of the header.  Trusted: as
/// its source shows, the size field is written as eleven `'0'` digits and a
/// NUL, nothing else changed.
#[verifier::external_body]
pub(crate) fn header_with_zero_size(header: &[u8; 512]) -> (r: [u8; 512])
    ensures
        r@ == ustar_zero_size(header@),
{
    let mut h = tar::Header::from_byte_slice(header).clone();
    h.set_size(0);
    *h.as_bytes()
}

/// Calls `tar::Header::set_cksum` on a copy of the header.  Trusted: as its
/// source shows, the byte sum of the header (checksum field read as spaces)
/// written in octal into the checksum field, as `ustar_with_cksum` spells it
/// out; no other byte changes.
#[verifier::external_body]
pub(crate) fn header_with_cksum(header: &[u8; 512]) -> (r: [u8; 512])
    ensures
        r@ == ustar_with_cksum(header@),
{
    let mut h = tar::Header::from_byte_slice(header).clone();
    h.set_cksum();
    *h.as_bytes()
}

/// A field whose first `n` bytes are not NUL and whose byte `n` is NUL (or
/// that ends after `n` bytes) reads back as its first `n` bytes.
pub proof fn lemma_until_nul(s: Seq<u8>, n: int)
    requires
        0 <= n <= s.len(),
        forall|i: int| 0 <= i < n ==> s[i] != 0,
        n == s.len() || s[n] == 0,
    ensures
        until_nul(s) == s.take(n),
    decreases n,
{
    if n == 0 {
        if s.len() > 0 {
            assert(s[0] == 0);
        }
        assert(s.take(0) =~= Seq::<u8>::empty());
    } else {
        lemma_until_nul(s.drop_first(), n - 1);
        assert(s.take(n) =~= seq![s[0]] + s.drop_first().take(n - 1));
    }
}

} // verus!
