//! Raw DNS wire-format utilities.
use vstd::prelude::*;

use crate::errors::Error;

verus! {

pub const DNS_HEADER_SIZE: usize = 12;

pub const DNS_MAX_PACKET_SIZE: usize = 4096;

/// Resource record type of the EDNS OPT pseudo-record.
pub const DNS_TYPE_OPT: u16 = 41;

/// Resource record type TXT.
pub const DNS_TYPE_TXT: u16 = 16;


/// Big-endian 16-bit value at offset `i`.
pub open spec fn be16(p: Seq<u8>, i: int) -> int {
    p[i] as int * 256 + p[i + 1] as int
}

/// The two big-endian bytes of a 16-bit value.
pub open spec fn be16_bytes(v: int) -> Seq<u8> {
    seq![(v / 256) as u8, (v % 256) as u8]
}

pub open spec fn spec_tid(p: Seq<u8>) -> int {
    be16(p, 0)
}

pub open spec fn spec_is_response(p: Seq<u8>) -> bool {
    p[2] >= 128
}

pub open spec fn spec_is_truncated(p: Seq<u8>) -> bool {
    (p[2] / 2) % 2 == 1
}

pub open spec fn spec_qdcount(p: Seq<u8>) -> int {
    be16(p, 4)
}

pub open spec fn spec_ancount(p: Seq<u8>) -> int {
    be16(p, 6)
}

pub open spec fn spec_nscount(p: Seq<u8>) -> int {
    be16(p, 8)
}

pub open spec fn spec_arcount(p: Seq<u8>) -> int {
    be16(p, 10)
}

/// Offset just past the name that starts at `pos`. Labels are at most 63
/// bytes; a compression pointer (two bytes, top bits set) ends a name and is
/// accepted only where `ptr_ok` holds.
pub open spec fn name_end(p: Seq<u8>, pos: int, ptr_ok: bool) -> Option<int>
    decreases p.len() - pos,
{
    if pos < 0 || pos >= p.len() {
        None
    } else if p[pos] == 0 {
        Some(pos + 1)
    } else if p[pos] >= 0xc0 {
        if ptr_ok && pos + 2 <= p.len() {
            Some(pos + 2)
        } else {
            None
        }
    } else if p[pos] >= 0x40 || pos + 1 + p[pos] > p.len() {
        None
    } else {
        name_end(p, pos + 1 + p[pos], ptr_ok)
    }
}

/// A name ends after it starts and within the message.
pub proof fn lemma_name_end_bounds(p: Seq<u8>, pos: int, ptr_ok: bool)
    requires
        name_end(p, pos, ptr_ok) is Some,
    ensures
        pos < name_end(p, pos, ptr_ok)->Some_0 <= p.len(),
    decreases p.len() - pos,
{
    if p[pos] != 0 && p[pos] < 0xc0 {
        lemma_name_end_bounds(p, pos + 1 + p[pos], ptr_ok);
    }
}

/// The encoded first question name (labels and final zero byte), when the
/// message holds a pointer-free one.
pub open spec fn spec_qname(p: Seq<u8>) -> Option<Seq<u8>> {
    match name_end(p, DNS_HEADER_SIZE as int, false) {
        Some(e) => Some(p.subrange(DNS_HEADER_SIZE as int, e)),
        None => None,
    }
}

pub open spec fn lower_byte(b: u8) -> u8 {
    if 65 <= b <= 90 {
        (b + 32) as u8
    } else {
        b
    }
}

/// Names compare equal ignoring ASCII case.
pub open spec fn names_match(a: Seq<u8>, b: Seq<u8>) -> bool {
    a.len() == b.len() && forall|i: int| 0 <= i < a.len() ==> lower_byte(#[trigger] a[i]) == lower_byte(b[i])
}

/// Reads the transaction ID.
pub fn tid(packet: &[u8]) -> (r: u16)
    requires
        packet@.len() >= 2,
    ensures
        r as int == spec_tid(packet@),
{
    packet[0] as u16 * 256 + packet[1] as u16
}

/// Writes the transaction ID.
pub fn set_tid(packet: &mut Vec<u8>, tid: u16)
    requires
        old(packet)@.len() >= 2,
    ensures
        final(packet)@ == old(packet)@.update(0, (tid / 256) as u8).update(1, (tid % 256) as u8),
        spec_tid(final(packet)@) == tid as int,
{
    packet.set(0, (tid / 256) as u8);
    packet.set(1, (tid % 256) as u8);
}

/// Whether the QR (response) bit is set.
pub fn is_response(packet: &[u8]) -> (r: bool)
    requires
        packet@.len() >= DNS_HEADER_SIZE,
    ensures
        r == spec_is_response(packet@),
{
    packet[2] >= 128
}

/// Whether the TC (truncated) bit is set.
pub fn is_truncated(packet: &[u8]) -> (r: bool)
    requires
        packet@.len() >= DNS_HEADER_SIZE,
    ensures
        r == spec_is_truncated(packet@),
{
    (packet[2] / 2) % 2 == 1
}

/// Number of entries in the question section.
pub fn qdcount(packet: &[u8]) -> (r: u16)
    requires
        packet@.len() >= DNS_HEADER_SIZE,
    ensures
        r as int == spec_qdcount(packet@),
{
    packet[4] as u16 * 256 + packet[5] as u16
}

/// Number of entries in the additional section.
pub fn arcount(packet: &[u8]) -> (r: u16)
    requires
        packet@.len() >= DNS_HEADER_SIZE,
    ensures
        r as int == spec_arcount(packet@),
{
    packet[10] as u16 * 256 + packet[11] as u16
}

/// Finds the end of the name that starts at `start`.
pub fn skip_name(packet: &[u8], start: usize, ptr_ok: bool) -> (r: Result<usize, Error>)
    ensures
        match r {
            Ok(e) => name_end(packet@, start as int, ptr_ok) == Some(e as int),
            Err(err) => err == Error::MalformedDns && name_end(packet@, start as int, ptr_ok) is None,
        },
{
    let mut pos: usize = start;
    loop
        invariant
            name_end(packet@, pos as int, ptr_ok) == name_end(packet@, start as int, ptr_ok),
        decreases packet@.len() - pos,
    {
        if pos >= packet.len() {
            return Err(Error::MalformedDns);
        }
        let b = packet[pos];
        if b == 0 {
            return Ok(pos + 1);
        }
        if b >= 0xc0 {
            if ptr_ok && packet.len() - pos >= 2 {
                return Ok(pos + 2);
            }
            return Err(Error::MalformedDns);
        }
        if b >= 0x40 {
            return Err(Error::MalformedDns);
        }
        if b as usize >= packet.len() - pos {
            return Err(Error::MalformedDns);
        }
        pos = pos + 1 + b as usize;
    }
}

/// The encoded first question name; compression pointers are refused.
pub fn qname(packet: &[u8]) -> (r: Result<Vec<u8>, Error>)
    ensures
        match r {
            Ok(n) => spec_qname(packet@) == Some(n@),
            Err(e) => e == Error::MalformedDns && spec_qname(packet@) is None,
        },
{
    let e = skip_name(packet, DNS_HEADER_SIZE, false)?;
    proof {
        lemma_name_end_bounds(packet@, DNS_HEADER_SIZE as int, false);
    }
    let mut out: Vec<u8> = Vec::new();
    let mut i: usize = DNS_HEADER_SIZE;
    while i < e
        invariant
            DNS_HEADER_SIZE <= i <= e <= packet@.len(),
            out@ == packet@.subrange(DNS_HEADER_SIZE as int, i as int),
        decreases e - i,
    {
        out.push(packet[i]);
        i += 1;
    }
    Ok(out)
}

fn to_lower(b: u8) -> (r: u8)
    ensures
        r == lower_byte(b),
{
    if 65 <= b && b <= 90 {
        b + 32
    } else {
        b
    }
}

/// Compares two encoded names, ignoring ASCII case.
pub fn qname_eq(a: &[u8], b: &[u8]) -> (r: bool)
    ensures
        r == names_match(a@, b@),
{
    if a.len() != b.len() {
        return false;
    }
    let mut i: usize = 0;
    while i < a.len()
        invariant
            a@.len() == b@.len(),
            i <= a@.len(),
            forall|j: int| 0 <= j < i ==> lower_byte(#[trigger] a@[j]) == lower_byte(b@[j]),
        decreases a@.len() - i,
    {
        if to_lower(a[i]) != to_lower(b[i]) {
            return false;
        }
        i += 1;
    }
    true
}

/// Offset just past `n` questions starting at `pos`.
pub open spec fn skip_questions(p: Seq<u8>, pos: int, n: nat) -> Option<int>
    decreases n,
{
    if n == 0 {
        Some(pos)
    } else {
        match name_end(p, pos, true) {
            None => None,
            Some(e) => if e + 4 > p.len() {
                None
            } else {
                skip_questions(p, e + 4, (n - 1) as nat)
            },
        }
    }
}

/// Walks `n` resource records from `pos`. `Some((true, c))`: when `find`
/// holds, an OPT record was met whose class field sits at offset `c`.
/// `Some((false, e))`: all `n` records were passed and the walk ended at `e`.
pub open spec fn scan_rrs(p: Seq<u8>, pos: int, n: nat, find: bool) -> Option<(bool, int)>
    decreases n,
{
    if n == 0 {
        Some((false, pos))
    } else {
        match name_end(p, pos, true) {
            None => None,
            Some(e) => if e + 10 > p.len() {
                None
            } else if find && be16(p, e) == DNS_TYPE_OPT as int {
                Some((true, e + 2))
            } else if e + 10 + be16(p, e + 8) > p.len() {
                None
            } else {
                scan_rrs(p, e + 10 + be16(p, e + 8), (n - 1) as nat, find)
            },
        }
    }
}

/// Where the OPT record's class field is (`Some((true, c))`), or, for a
/// message without one whose records end exactly at its end,
/// `Some((false, len))`. `None` for anything malformed.
pub open spec fn edns_layout(p: Seq<u8>) -> Option<(bool, int)> {
    if p.len() < DNS_HEADER_SIZE {
        None
    } else {
        match skip_questions(p, DNS_HEADER_SIZE as int, spec_qdcount(p) as nat) {
            None => None,
            Some(q) => match scan_rrs(p, q, (spec_ancount(p) + spec_nscount(p)) as nat, false) {
                Some((false, t)) => match scan_rrs(p, t, spec_arcount(p) as nat, true) {
                    Some((true, c)) => Some((true, c)),
                    Some((false, e)) => if e == p.len() {
                        Some((false, e))
                    } else {
                        None
                    },
                    None => None,
                },
                _ => None,
            },
        }
    }
}

/// An OPT pseudo-record advertising `size` as the UDP payload size.
pub open spec fn opt_rr(size: u16) -> Seq<u8> {
    seq![0u8, 0u8, 41u8] + be16_bytes(size as int) + seq![0u8, 0u8, 0u8, 0u8, 0u8, 0u8]
}

/// The message with its advertised UDP payload size set to `size`: the OPT
/// record's class is rewritten, or an OPT record is appended and ARCOUNT
/// raised by one.
pub open spec fn edns_rewrite(p: Seq<u8>, size: u16) -> Option<Seq<u8>> {
    match edns_layout(p) {
        None => None,
        Some((true, c)) => Some(
            p.update(c, be16_bytes(size as int)[0]).update(c + 1, be16_bytes(size as int)[1]),
        ),
        Some((false, _)) => if spec_arcount(p) >= 0xffff {
            None
        } else {
            Some(
                p.subrange(0, 10) + be16_bytes(spec_arcount(p) + 1) + p.subrange(12, p.len() as int)
                    + opt_rr(size),
            )
        },
    }
}

fn be16_at(p: &[u8], i: usize) -> (r: usize)
    requires
        i + 2 <= p@.len(),
    ensures
        r as int == be16(p@, i as int),
{
    p[i] as usize * 256 + p[i + 1] as usize
}

fn exec_skip_questions(p: &[u8], start: usize, n: usize) -> (r: Result<usize, Error>)
    requires
        start <= p@.len(),
    ensures
        match r {
            Ok(e) => skip_questions(p@, start as int, n as nat) == Some(e as int),
            Err(err) => err == Error::MalformedDns && skip_questions(p@, start as int, n as nat) is None,
        },
{
    let mut pos: usize = start;
    let mut i: usize = 0;
    while i < n
        invariant
            i <= n,
            pos <= p@.len(),
            skip_questions(p@, pos as int, (n - i) as nat) == skip_questions(p@, start as int, n as nat),
        decreases n - i,
    {
        let e = skip_name(p, pos, true)?;
        proof {
            lemma_name_end_bounds(p@, pos as int, true);
        }
        if p.len() - e < 4 {
            return Err(Error::MalformedDns);
        }
        pos = e + 4;
        i += 1;
    }
    Ok(pos)
}

fn exec_scan_rrs(p: &[u8], start: usize, n: usize, find: bool) -> (r: Result<(bool, usize), Error>)
    requires
        start <= p@.len(),
    ensures
        match r {
            Ok((b, x)) => scan_rrs(p@, start as int, n as nat, find) == Some((b, x as int)),
            Err(err) => err == Error::MalformedDns && scan_rrs(p@, start as int, n as nat, find) is None,
        },
{
    let mut pos: usize = start;
    let mut i: usize = 0;
    while i < n
        invariant
            i <= n,
            pos <= p@.len(),
            scan_rrs(p@, pos as int, (n - i) as nat, find) == scan_rrs(p@, start as int, n as nat, find),
        decreases n - i,
    {
        let e = skip_name(p, pos, true)?;
        proof {
            lemma_name_end_bounds(p@, pos as int, true);
        }
        if p.len() - e < 10 {
            return Err(Error::MalformedDns);
        }
        if find && be16_at(p, e) == DNS_TYPE_OPT as usize {
            return Ok((true, e + 2));
        }
        let rdlen = be16_at(p, e + 8);
        if p.len() - (e + 10) < rdlen {
            return Err(Error::MalformedDns);
        }
        pos = e + 10 + rdlen;
        i += 1;
    }
    Ok((false, pos))
}

/// Sets the advertised UDP payload size of the message to `size`, rewriting
/// its OPT record or appending one.
pub fn set_edns_max_payload_size(packet: &mut Vec<u8>, size: u16) -> (r: Result<(), Error>)
    ensures
        match r {
            Ok(()) => edns_rewrite(old(packet)@, size) == Some(final(packet)@),
            Err(e) => e == Error::MalformedDns && edns_rewrite(old(packet)@, size) is None
                && final(packet)@ == old(packet)@,
        },
{
    if packet.len() < DNS_HEADER_SIZE {
        return Err(Error::MalformedDns);
    }
    let qd = be16_at(packet.as_slice(), 4);
    let an = be16_at(packet.as_slice(), 6);
    let ns = be16_at(packet.as_slice(), 8);
    let ar = be16_at(packet.as_slice(), 10);
    let q = exec_skip_questions(packet.as_slice(), DNS_HEADER_SIZE, qd)?;
    proof {
        lemma_questions_bounds(packet@, DNS_HEADER_SIZE as int, qd as nat);
        lemma_scan_bounds(packet@, q as int, (an + ns) as nat, false);
    }
    let (found, t) = exec_scan_rrs(packet.as_slice(), q, an + ns, false)?;
    if found {
        return Err(Error::MalformedDns);
    }
    proof {
        assert(scan_rrs(packet@, q as int, (an + ns) as nat, false) != Some((true, t as int)))
            by { lemma_scan_no_find(packet@, q as int, (an + ns) as nat); }
    }
    let (found, x) = exec_scan_rrs(packet.as_slice(), t, ar, true)?;
    proof {
        lemma_scan_bounds(packet@, t as int, ar as nat, true);
    }
    if found {
        packet.set(x, (size / 256) as u8);
        packet.set(x + 1, (size % 256) as u8);
        return Ok(());
    }
    if x != packet.len() {
        return Err(Error::MalformedDns);
    }
    if ar >= 0xffff {
        return Err(Error::MalformedDns);
    }
    let ar2 = ar + 1;
    packet.set(10, (ar2 / 256) as u8);
    packet.set(11, (ar2 % 256) as u8);
    packet.push(0);
    packet.push(0);
    packet.push(41);
    packet.push((size / 256) as u8);
    packet.push((size % 256) as u8);
    packet.push(0);
    packet.push(0);
    packet.push(0);
    packet.push(0);
    packet.push(0);
    packet.push(0);
    proof {
        assert(packet@ =~= old(packet)@.subrange(0, 10) + be16_bytes(ar2 as int)
            + old(packet)@.subrange(12, old(packet)@.len() as int) + opt_rr(size));
    }
    Ok(())
}

proof fn lemma_scan_no_find(p: Seq<u8>, pos: int, n: nat)
    ensures
        scan_rrs(p, pos, n, false) matches Some((b, _)) ==> !b,
    decreases n,
{
    if n > 0 {
        if let Some(e) = name_end(p, pos, true) {
            if e + 10 <= p.len() && e + 10 + be16(p, e + 8) <= p.len() {
                lemma_scan_no_find(p, e + 10 + be16(p, e + 8), (n - 1) as nat);
            }
        }
    }
}

proof fn lemma_scan_bounds(p: Seq<u8>, pos: int, n: nat, find: bool)
    requires
        0 <= pos <= p.len(),
    ensures
        scan_rrs(p, pos, n, find) matches Some((b, x)) ==> pos <= x <= p.len() && (b ==> pos < x
            && x + 2 <= p.len()),
    decreases n,
{
    if n > 0 {
        if let Some(e) = name_end(p, pos, true) {
            lemma_name_end_bounds(p, pos, true);
            if e + 10 <= p.len() && e + 10 + be16(p, e + 8) <= p.len() {
                lemma_scan_bounds(p, e + 10 + be16(p, e + 8), (n - 1) as nat, find);
            }
        }
    }
}

proof fn lemma_questions_bounds(p: Seq<u8>, pos: int, n: nat)
    requires
        0 <= pos <= p.len(),
    ensures
        skip_questions(p, pos, n) matches Some(x) ==> pos <= x <= p.len(),
    decreases n,
{
    if n > 0 {
        if let Some(e) = name_end(p, pos, true) {
            lemma_name_end_bounds(p, pos, true);
            if e + 4 <= p.len() {
                lemma_questions_bounds(p, e + 4, (n - 1) as nat);
            }
        }
    }
}

/// Offset just past the single question of a query, if well formed.
pub open spec fn question_end(q: Seq<u8>) -> Option<int> {
    if q.len() < DNS_HEADER_SIZE || spec_qdcount(q) != 1 {
        None
    } else {
        skip_questions(q, DNS_HEADER_SIZE as int, 1)
    }
}

/// The truncated response to a query: its header with QR and TC set and the
/// answer, authority and additional counts cleared, then its question.
pub open spec fn truncated_response(q: Seq<u8>) -> Option<Seq<u8>> {
    match question_end(q) {
        None => None,
        Some(e) => Some(
            seq![q[0], q[1], q[2] | 0x82u8, q[3], q[4], q[5], 0u8, 0u8, 0u8, 0u8, 0u8, 0u8]
                + q.subrange(DNS_HEADER_SIZE as int, e),
        ),
    }
}

/// Builds a response with the truncated flag set, echoing the query's
/// question, so that the client retries over TCP.
pub fn serve_truncated(query: &[u8]) -> (r: Result<Vec<u8>, Error>)
    ensures
        match r {
            Ok(resp) => truncated_response(query@) == Some(resp@) && spec_is_response(resp@)
                && spec_is_truncated(resp@) && spec_qdcount(resp@) == spec_qdcount(query@)
                && spec_ancount(resp@) == 0 && spec_nscount(resp@) == 0 && spec_arcount(resp@) == 0,
            Err(e) => e == Error::MalformedDns && truncated_response(query@) is None,
        },
{
    if query.len() < DNS_HEADER_SIZE || qdcount(query) != 1 {
        return Err(Error::MalformedDns);
    }
    let e = exec_skip_questions(query, DNS_HEADER_SIZE, 1)?;
    proof {
        lemma_questions_bounds(query@, DNS_HEADER_SIZE as int, 1);
    }
    let b2 = query[2];
    let flags = b2 | 0x82u8;
    assert(flags >= 128u8 && (flags / 2u8) % 2u8 == 1u8) by (bit_vector)
        requires flags == b2 | 0x82u8;
    let mut out: Vec<u8> = vec![query[0], query[1], flags, query[3], query[4], query[5], 0, 0, 0, 0, 0, 0];
    let mut i: usize = DNS_HEADER_SIZE;
    while i < e
        invariant
            DNS_HEADER_SIZE <= i <= e <= query@.len(),
            out@ == seq![query@[0], query@[1], flags, query@[3], query@[4], query@[5], 0u8, 0u8, 0u8, 0u8, 0u8, 0u8]
                + query@.subrange(DNS_HEADER_SIZE as int, i as int),
        decreases e - i,
    {
        out.push(query[i]);
        i += 1;
        proof {
            assert(out@ =~= seq![query@[0], query@[1], flags, query@[3], query@[4], query@[5], 0u8, 0u8, 0u8, 0u8, 0u8, 0u8]
                + query@.subrange(DNS_HEADER_SIZE as int, i as int));
        }
    }
    Ok(out)
}

/// `q` holds the bytes of `p` on `[lo, hi)` and is at least as long.
pub open spec fn agree_on(p: Seq<u8>, q: Seq<u8>, lo: int, hi: int) -> bool {
    0 <= lo && hi <= p.len() && p.len() <= q.len() && forall|i: int| lo <= i < hi ==> p[i] == q[i]
}

proof fn lemma_name_frame(p: Seq<u8>, q: Seq<u8>, pos: int, lo: int, hi: int, ptr_ok: bool)
    requires
        agree_on(p, q, lo, hi),
        lo <= pos,
        name_end(p, pos, ptr_ok) matches Some(e) && e <= hi,
    ensures
        name_end(q, pos, ptr_ok) == name_end(p, pos, ptr_ok),
    decreases p.len() - pos,
{
    lemma_name_end_bounds(p, pos, ptr_ok);
    assert(p[pos] == q[pos]);
    if p[pos] != 0 && p[pos] < 0xc0 {
        lemma_name_frame(p, q, pos + 1 + p[pos], lo, hi, ptr_ok);
    }
}

proof fn lemma_questions_frame(p: Seq<u8>, q: Seq<u8>, pos: int, n: nat, lo: int, hi: int)
    requires
        agree_on(p, q, lo, hi),
        lo <= pos <= p.len(),
        skip_questions(p, pos, n) matches Some(x) && x <= hi,
    ensures
        skip_questions(q, pos, n) == skip_questions(p, pos, n),
    decreases n,
{
    if n > 0 {
        let e = name_end(p, pos, true)->Some_0;
        lemma_name_end_bounds(p, pos, true);
        lemma_questions_bounds(p, e + 4, (n - 1) as nat);
        lemma_name_frame(p, q, pos, lo, hi, true);
        lemma_questions_frame(p, q, e + 4, (n - 1) as nat, lo, hi);
    }
}

proof fn lemma_scan_frame(p: Seq<u8>, q: Seq<u8>, pos: int, n: nat, k: nat, find: bool, lo: int, hi: int)
    requires
        agree_on(p, q, lo, hi),
        lo <= pos <= p.len(),
        scan_rrs(p, pos, n, find) matches Some((_, x)) && x <= hi,
    ensures
        scan_rrs(p, pos, n, find) matches Some((true, x)) ==> scan_rrs(q, pos, n + k, find) == Some((true, x)),
        scan_rrs(p, pos, n, find) matches Some((false, x)) ==> scan_rrs(q, pos, n + k, find) == scan_rrs(q, x, k, find),
    decreases n,
{
    if n > 0 {
        let e = name_end(p, pos, true)->Some_0;
        lemma_name_end_bounds(p, pos, true);
        if find && be16(p, e) == DNS_TYPE_OPT as int {
            lemma_name_frame(p, q, pos, lo, hi, true);
            assert(p[e] == q[e] && p[e + 1] == q[e + 1]);
        } else {
            let next = e + 10 + be16(p, e + 8);
            lemma_scan_bounds(p, next, (n - 1) as nat, find);
            lemma_name_frame(p, q, pos, lo, hi, true);
            assert(p[e] == q[e] && p[e + 1] == q[e + 1]);
            assert(p[e + 8] == q[e + 8] && p[e + 9] == q[e + 9]);
            lemma_scan_frame(p, q, next, (n - 1) as nat, k, find, lo, hi);
            assert((n + k - 1) as nat == (n - 1) as nat + k);
        }
    }
}

proof fn lemma_be16_bytes(v: int)
    requires
        0 <= v <= 0xffff,
    ensures
        be16(be16_bytes(v), 0) == v,
{
}

/// Rewriting the advertised UDP payload size is idempotent: applying the
/// rewrite to its own result changes nothing.
pub proof fn lemma_edns_rewrite_idempotent(p: Seq<u8>, size: u16)
    requires
        edns_rewrite(p, size) is Some,
    ensures
        edns_rewrite(edns_rewrite(p, size)->Some_0, size) == edns_rewrite(p, size),
{
    let q = edns_rewrite(p, size)->Some_0;
    let hdr = DNS_HEADER_SIZE as int;
    let qd = spec_qdcount(p) as nat;
    let anns = (spec_ancount(p) + spec_nscount(p)) as nat;
    let ar = spec_arcount(p) as nat;
    let qpos = skip_questions(p, hdr, qd)->Some_0;
    let t = scan_rrs(p, qpos, anns, false)->Some_0.1;
    lemma_questions_bounds(p, hdr, qd);
    lemma_scan_bounds(p, qpos, anns, false);
    lemma_scan_bounds(p, t, ar, true);
    let b = be16_bytes(size as int);
    match edns_layout(p) {
        Some((true, c)) => {
            assert(forall|i: int| 0 <= i < p.len() && i != c && i != c + 1 ==> q[i] == p[i]);
            assert(agree_on(p, q, hdr, c));
            assert(spec_qdcount(q) == spec_qdcount(p) && spec_ancount(q) == spec_ancount(p)
                && spec_nscount(q) == spec_nscount(p) && spec_arcount(q) == spec_arcount(p));
            lemma_questions_frame(p, q, hdr, qd, hdr, c);
            lemma_scan_frame(p, q, qpos, anns, 0, false, hdr, c);
            lemma_scan_frame(p, q, t, ar, 0, true, hdr, c);
            assert(edns_layout(q) == Some((true, c)));
            assert(q.update(c, b[0]).update(c + 1, b[1]) =~= q);
        },
        Some((false, end)) => {
            let n = p.len() as int;
            let ar1 = spec_arcount(p) + 1;
            lemma_be16_bytes(ar1);
            assert(q.len() == n + 11);
            assert(forall|i: int| 0 <= i < 10 ==> q[i] == p[i]);
            assert(forall|i: int| 12 <= i < n ==> q[i] == p[i]);
            assert(q[10] == be16_bytes(ar1)[0] && q[11] == be16_bytes(ar1)[1]);
            assert(agree_on(p, q, hdr, n));
            assert(spec_qdcount(q) == spec_qdcount(p) && spec_ancount(q) == spec_ancount(p)
                && spec_nscount(q) == spec_nscount(p));
            assert(spec_arcount(q) == ar1);
            lemma_questions_frame(p, q, hdr, qd, hdr, n);
            lemma_scan_frame(p, q, qpos, anns, 0, false, hdr, n);
            lemma_scan_frame(p, q, t, ar, 1, true, hdr, n);
            assert(q[n] == 0 && q[n + 1] == 0 && q[n + 2] == 41 && q[n + 3] == b[0] && q[n + 4] == b[1]);
            assert(name_end(q, n, true) == Some(n + 1));
            assert(scan_rrs(q, n, 1, true) == Some((true, n + 3)));
            assert((ar + 1) as nat == spec_arcount(q) as nat);
            assert(edns_layout(q) == Some((true, n + 3)));
            assert(q.update(n + 3, b[0]).update(n + 4, b[1]) =~= q);
        },
        None => {},
    }
}

proof fn lemma_layout_frame(p: Seq<u8>, r: Seq<u8>)
    requires
        p.len() == r.len(),
        forall|i: int| 2 <= i < p.len() ==> p[i] == r[i],
        edns_layout(p) is Some,
    ensures
        edns_layout(r) == edns_layout(p),
{
    let hdr = DNS_HEADER_SIZE as int;
    let n = p.len() as int;
    let qd = spec_qdcount(p) as nat;
    let anns = (spec_ancount(p) + spec_nscount(p)) as nat;
    let ar = spec_arcount(p) as nat;
    assert(agree_on(p, r, hdr, n));
    assert(spec_qdcount(r) == spec_qdcount(p) && spec_ancount(r) == spec_ancount(p)
        && spec_nscount(r) == spec_nscount(p) && spec_arcount(r) == spec_arcount(p));
    lemma_questions_bounds(p, hdr, qd);
    let qpos = skip_questions(p, hdr, qd)->Some_0;
    lemma_questions_frame(p, r, hdr, qd, hdr, n);
    lemma_scan_bounds(p, qpos, anns, false);
    lemma_scan_frame(p, r, qpos, anns, 0, false, hdr, n);
    let t = scan_rrs(p, qpos, anns, false)->Some_0.1;
    lemma_scan_bounds(p, t, ar, true);
    lemma_scan_frame(p, r, t, ar, 0, true, hdr, n);
}

/// Whether the advertised payload size can be rewritten does not depend on
/// the transaction ID.
pub proof fn lemma_layout_ignores_tid(p: Seq<u8>, r: Seq<u8>)
    requires
        p.len() == r.len(),
        forall|i: int| 2 <= i < p.len() ==> p[i] == r[i],
    ensures
        edns_layout(r) == edns_layout(p),
        forall|size: u16| (edns_rewrite(p, size) is Some <==> #[trigger] edns_rewrite(r, size) is Some),
{
    if edns_layout(p) is Some {
        lemma_layout_frame(p, r);
    } else if edns_layout(r) is Some {
        lemma_layout_frame(r, p);
    }
    if p.len() >= DNS_HEADER_SIZE {
        assert(p[10] == r[10] && p[11] == r[11]);
    }
}

} // verus!
