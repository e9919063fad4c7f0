//! What a USB device says it offers.
//!
//! A configuration descriptor is a chain of records, each with its length
//! and kind in front. Interfaces, endpoints and audio formats are kept; the
//! rest is stepped over.

use crate::fixed::{text48_new, text_push_str, text_str};
use crate::fixed::{lemma_ascii_bytes, text48};
use crate::text::{add_dec, add_hex_byte, dec_of, string_of};
use crate::text::{dec, hex_byte};
use vstd::prelude::*;

verus! {

/// Record kinds.
pub const T_INTERFACE: u8 = 0x04;

pub const T_ENDPOINT: u8 = 0x05;

pub const T_CS_INTERFACE: u8 = 0x24;

pub const CS_FORMAT_TYPE: u8 = 0x02;

/// A record that is worth a line.
#[derive(Debug, PartialEq, Eq)]
pub enum Record {
    Interface { num: u8, alt: u8, endpoints: u8, class: u8, sub: u8, proto: u8 },
    Endpoint { addr: u8, attr: u8, max_packet: u16, interval: u8 },
    Format {
        ftype: u8,
        channels: u8,
        subframe: u8,
        bits: u8,
        /// A range of rates rather than a list.
        continuous: bool,
        freqs: Vec<u32>,
    },
}

pub enum RecordView {
    Interface { num: u8, alt: u8, endpoints: u8, class: u8, sub: u8, proto: u8 },
    Endpoint { addr: u8, attr: u8, max_packet: u16, interval: u8 },
    Format {
        ftype: u8,
        channels: u8,
        subframe: u8,
        bits: u8,
        continuous: bool,
        freqs: Seq<u32>,
    },
}

impl View for Record {
    type V = RecordView;

    open spec fn view(&self) -> RecordView {
        match self {
            Record::Interface { num, alt, endpoints, class, sub, proto } => RecordView::Interface {
                num: *num,
                alt: *alt,
                endpoints: *endpoints,
                class: *class,
                sub: *sub,
                proto: *proto,
            },
            Record::Endpoint { addr, attr, max_packet, interval } => RecordView::Endpoint {
                addr: *addr,
                attr: *attr,
                max_packet: *max_packet,
                interval: *interval,
            },
            Record::Format { ftype, channels, subframe, bits, continuous, freqs } =>
                RecordView::Format {
                ftype: *ftype,
                channels: *channels,
                subframe: *subframe,
                bits: *bits,
                continuous: *continuous,
                freqs: freqs@,
            },
        }
    }
}

/// Rates named by a format record, at most.
pub open spec fn rates_named(nfreq: u8) -> int {
    if nfreq == 0 {
        2
    } else if nfreq < 4 {
        nfreq as int
    } else {
        4
    }
}

/// Rates that the record holds: those named, as far as it is long enough.
pub open spec fn rates_held(len: int, nfreq: u8) -> int {
    if rates_named(nfreq) <= (len - 8) / 3 {
        rates_named(nfreq)
    } else {
        (len - 8) / 3
    }
}

/// A rate: three bytes, the lowest first.
pub open spec fn rate_at(d: Seq<u8>, k: int) -> u32 {
    (d[8 + 3 * k] + 256 * d[9 + 3 * k] + 65_536 * d[10 + 3 * k]) as u32
}

/// What a record says, if it is worth a line.
pub open spec fn record_of(d: Seq<u8>) -> Option<RecordView> {
    if d[1] == T_INTERFACE && d.len() >= 9 {
        Some(
            RecordView::Interface {
                num: d[2],
                alt: d[3],
                endpoints: d[4],
                class: d[5],
                sub: d[6],
                proto: d[7],
            },
        )
    } else if d[1] == T_ENDPOINT && d.len() >= 7 {
        Some(
            RecordView::Endpoint {
                addr: d[2],
                attr: d[3],
                max_packet: (d[4] + 256 * d[5]) as u16,
                interval: d[6],
            },
        )
    } else if d[1] == T_CS_INTERFACE && d.len() >= 8 && d[2] == CS_FORMAT_TYPE {
        Some(
            RecordView::Format {
                ftype: d[3],
                channels: d[4],
                subframe: d[5],
                bits: d[6],
                continuous: d[7] == 0,
                freqs: Seq::new(
                    rates_held(d.len() as int, d[7]) as nat,
                    |k: int| rate_at(d, k),
                ),
            },
        )
    } else {
        None
    }
}

/// The records of a descriptor, up to the first that does not fit.
pub open spec fn records(bytes: Seq<u8>) -> Seq<RecordView>
    decreases bytes.len(),
{
    if bytes.len() < 2 || bytes[0] < 2 || bytes[0] > bytes.len() {
        Seq::empty()
    } else {
        let len = bytes[0] as int;
        let rest = records(bytes.skip(len));
        match record_of(bytes.take(len)) {
            Some(r) => seq![r] + rest,
            None => rest,
        }
    }
}

pub open spec fn record_views(v: Seq<Record>) -> Seq<RecordView> {
    v.map_values(|r: Record| r@)
}

fn read_rates(bytes: &[u8], i: usize, len: usize) -> (r: Vec<u32>)
    requires
        8 <= len,
        i + len <= bytes.len(),
    ensures
        r@ == Seq::new(
            rates_held(len as int, bytes@[i + 7]) as nat,
            |k: int| rate_at(bytes@.subrange(i as int, i + len), k),
        ),
{
    let nfreq: u8 = bytes[i + 7];
    let named: usize = if nfreq == 0 {
        2
    } else if nfreq < 4 {
        nfreq as usize
    } else {
        4
    };
    let ghost d = bytes@.subrange(i as int, i + len);
    let mut out: Vec<u32> = Vec::new();
    let mut k: usize = 0;
    while k < named
        invariant
            k <= named <= 4,
            named == rates_named(nfreq),
            8 <= len,
            i + len <= bytes@.len(),
            bytes@.len() <= usize::MAX,
            d == bytes@.subrange(i as int, i + len),
            out@.len() == (if k <= (len - 8) / 3 {
                k as int
            } else {
                (len - 8) / 3
            }),
            forall|j: int| 0 <= j < out@.len() ==> #[trigger] out@[j] == rate_at(d, j),
        decreases named - k,
    {
        if 8 + 3 * k + 3 <= len {
            let o: usize = i + 8 + 3 * k;
            let hz: u32 = bytes[o] as u32 + 256 * bytes[o + 1] as u32 + 65_536 * bytes[o + 2] as u32;
            assert(hz == rate_at(d, k as int));
            out.push(hz);
        }
        k += 1;
    }
    assert(out@ =~= Seq::new(
        rates_held(len as int, nfreq) as nat,
        |k: int| rate_at(d, k),
    ));
    out
}

fn read_record(bytes: &[u8], i: usize, len: usize) -> (r: Option<Record>)
    requires
        2 <= len,
        i + len <= bytes.len(),
    ensures
        match r {
            Some(x) => record_of(bytes@.subrange(i as int, i + len)) == Some(x@),
            None => record_of(bytes@.subrange(i as int, i + len)) is None,
        },
{
    let ghost d = bytes@.subrange(i as int, i + len);
    let kind: u8 = bytes[i + 1];
    assert(d[1] == kind);
    if kind == T_INTERFACE && len >= 9 {
        Some(
            Record::Interface {
                num: bytes[i + 2],
                alt: bytes[i + 3],
                endpoints: bytes[i + 4],
                class: bytes[i + 5],
                sub: bytes[i + 6],
                proto: bytes[i + 7],
            },
        )
    } else if kind == T_ENDPOINT && len >= 7 {
        let max_packet: u16 = bytes[i + 4] as u16 + 256 * bytes[i + 5] as u16;
        Some(
            Record::Endpoint {
                addr: bytes[i + 2],
                attr: bytes[i + 3],
                max_packet,
                interval: bytes[i + 6],
            },
        )
    } else if kind == T_CS_INTERFACE && len >= 8 && bytes[i + 2] == CS_FORMAT_TYPE {
        let freqs = read_rates(bytes, i, len);
        Some(
            Record::Format {
                ftype: bytes[i + 3],
                channels: bytes[i + 4],
                subframe: bytes[i + 5],
                bits: bytes[i + 6],
                continuous: bytes[i + 7] == 0,
                freqs,
            },
        )
    } else {
        None
    }
}

/// Walks a configuration descriptor.
pub fn walk_config(bytes: &[u8]) -> (r: Vec<Record>)
    ensures
        record_views(r@) == records(bytes@),
        forall|i: int| 0 <= i < r@.len() ==> record_ok((#[trigger] r@[i])@),
{
    let mut out: Vec<Record> = Vec::new();
    let mut i: usize = 0;
    let n: usize = bytes.len();
    assert(bytes@.skip(0) =~= bytes@);
    assert(record_views(out@) =~= Seq::<RecordView>::empty());
    assert(record_views(out@) + records(bytes@.skip(0)) =~= records(bytes@));
    while n - i >= 2 && bytes[i] >= 2 && (bytes[i] as usize) <= n - i
        invariant
            i <= n,
            n == bytes@.len(),
            record_views(out@) + records(bytes@.skip(i as int)) == records(bytes@),
        decreases n - i,
    {
        let len: usize = bytes[i] as usize;
        let ghost rest = bytes@.skip(i as int);
        proof {
            assert(rest[0] == bytes@[i as int]);
            assert(rest.take(len as int) =~= bytes@.subrange(i as int, i + len));
            assert(rest.skip(len as int) =~= bytes@.skip(i + len));
        }
        let ghost before = out@;
        match read_record(bytes, i, len) {
            Some(x) => {
                let ghost xv = x@;
                out.push(x);
                proof {
                    assert(record_views(out@) =~= record_views(before).push(xv));
                    assert(record_views(before) + (seq![xv] + records(bytes@.skip(i + len)))
                        =~= record_views(out@) + records(bytes@.skip(i + len)));
                }
            },
            None => {},
        }
        i += len;
    }
    proof {
        let rest = bytes@.skip(i as int);
        if rest.len() > 0 {
            assert(rest[0] == bytes@[i as int]);
        }
        assert(records(rest) =~= Seq::<RecordView>::empty());
        assert(record_views(out@) + records(rest) =~= record_views(out@));
        law_records_have_lines(bytes@);
        assert forall|i: int| 0 <= i < out@.len() implies record_ok((#[trigger] out@[i])@) by {
            assert(record_views(out@)[i] == out@[i]@);
        }
    }
    out
}

// ── Lines ───────────────────────────────────────────────────────────────────

/// What an interface is for.
pub open spec fn interface_name(class: u8, sub: u8) -> Seq<char> {
    if class == 0x01 && sub == 0x01 {
        " (audio control)"@
    } else if class == 0x01 && sub == 0x02 {
        " (AUDIO STREAMING)"@
    } else if class == 0x02 {
        " (CDC control — CI-V)"@
    } else if class == 0x0a {
        " (CDC data — CI-V)"@
    } else {
        ""@
    }
}

pub open spec fn transfer_name(attr: u8) -> Seq<char> {
    if attr % 4 == 0 {
        "control"@
    } else if attr % 4 == 1 {
        "isochronous"@
    } else if attr % 4 == 2 {
        "bulk"@
    } else {
        "interrupt"@
    }
}

/// Rates in a row: a range as `low..high`, a list with commas.
pub open spec fn rates_text(freqs: Seq<u32>, continuous: bool) -> Seq<char>
    decreases freqs.len(),
{
    if freqs.len() == 0 {
        Seq::empty()
    } else if freqs.len() == 1 {
        dec(freqs[0] as nat)
    } else {
        rates_text(freqs.drop_last(), continuous) + (if continuous {
            ".."@
        } else {
            ","@
        }) + dec(freqs.last() as nat)
    }
}

pub open spec fn record_line(r: RecordView) -> Seq<char> {
    match r {
        RecordView::Interface { num, alt, endpoints, class, sub, proto } => "uac:     iface "@
            + dec(num as nat) + " alt "@ + dec(alt as nat) + ": class "@ + hex_byte(class) + "/"@
            + hex_byte(sub) + "/"@ + hex_byte(proto) + " "@ + dec(endpoints as nat)
            + " endpoint(s)"@ + interface_name(class, sub),
        RecordView::Endpoint { addr, attr, max_packet, interval } => "uac:       ep "@ + hex_byte(
            addr,
        ) + (if addr >= 0x80 {
            " IN  "@
        } else {
            " OUT "@
        }) + transfer_name(attr) + " maxpkt "@ + dec(max_packet as nat) + " ivl "@ + dec(
            interval as nat,
        ),
        RecordView::Format { ftype, channels, subframe, bits, continuous, freqs } =>
            "uac:       fmt type "@ + dec(ftype as nat) + " "@ + dec(channels as nat) + "ch "@ + dec(
            bits as nat,
        ) + "b (sub "@ + dec(subframe as nat) + ") freq "@ + (if continuous {
            "cont"@
        } else {
            "list"@
        }) + "                      ["@ + rates_text(freqs, continuous) + "]"@,
    }
}

/// At most four rates of three bytes, at most two of them for a range.
pub open spec fn record_ok(r: RecordView) -> bool {
    match r {
        RecordView::Format { freqs, .. } => freqs.len() <= 4 && forall|i: int|
            0 <= i < freqs.len() ==> #[trigger] freqs[i] < 0x100_0000,
        _ => true,
    }
}

proof fn lemma_dec_short(n: nat)
    requires
        n < 0x100_0000,
    ensures
        dec(n).len() <= 8,
        forall|i: int| 0 <= i < dec(n).len() ==> (#[trigger] dec(n)[i] as u32) < 128,
{
    reveal_with_fuel(dec, 9);
}

proof fn lemma_rates_short(freqs: Seq<u32>, continuous: bool)
    requires
        forall|i: int| 0 <= i < freqs.len() ==> #[trigger] freqs[i] < 0x100_0000,
    ensures
        rates_text(freqs, continuous).len() <= 10 * freqs.len(),
        freqs.len() > 0 ==> rates_text(freqs, continuous).len() <= 10 * freqs.len() - 2,
        forall|i: int|
            0 <= i < rates_text(freqs, continuous).len() ==> (#[trigger] rates_text(
                freqs,
                continuous,
            )[i] as u32) < 128,
    decreases freqs.len(),
{
    reveal_strlit("..");
    reveal_strlit(",");
    if freqs.len() > 0 {
        assert(freqs[freqs.len() - 1] < 0x100_0000);
        assert(freqs[0] < 0x100_0000);
        lemma_dec_short(freqs.last() as nat);
        lemma_dec_short(freqs[0] as nat);
        if freqs.len() > 1 {
            let t = freqs.drop_last();
            assert forall|i: int| 0 <= i < t.len() implies #[trigger] t[i] < 0x100_0000 by {
                assert(freqs[i] == t[i]);
            }
            lemma_rates_short(t, continuous);
        }
    }
}

fn rates(freqs: &[u32], continuous: bool) -> (r: heapless::String<48>)
    requires
        freqs.len() <= 4,
        forall|i: int| 0 <= i < freqs.len() ==> #[trigger] freqs@[i] < 0x100_0000,
    ensures
        text48(r) == rates_text(freqs@, continuous),
{
    let mut f = text48_new();
    let mut k: usize = 0;
    assert(freqs@.take(0) =~= Seq::<u32>::empty());
    while k < freqs.len()
        invariant
            k <= freqs.len() <= 4,
            forall|i: int| 0 <= i < freqs.len() ==> #[trigger] freqs@[i] < 0x100_0000,
            text48(f) == rates_text(freqs@.take(k as int), continuous),
        decreases freqs.len() - k,
    {
        let ghost done = freqs@.take(k as int);
        let ghost now = freqs@.take(k + 1);
        proof {
            reveal_strlit("..");
            reveal_strlit(",");
            assert(now.drop_last() =~= done);
            assert(now.last() == freqs@[k as int]);
            assert(k == 0 ==> now[0] == freqs@[0]);
            lemma_rates_short(done, continuous);
            lemma_dec_short(freqs@[k as int] as nat);
            lemma_ascii_bytes(rates_text(done, continuous));
            lemma_ascii_bytes(dec(freqs@[k as int] as nat));
            lemma_ascii_bytes(".."@);
            lemma_ascii_bytes(","@);
            lemma_ascii_bytes(rates_text(done, continuous) + ".."@);
            lemma_ascii_bytes(rates_text(done, continuous) + ","@);
        }
        if k > 0 {
            let _sep = text_push_str(
                &mut f,
                if continuous {
                    ".."
                } else {
                    ","
                },
            );
        }
        let d = string_of(dec_of(freqs[k] as u128).as_slice());
        let _hz = text_push_str(&mut f, d.as_str());
        proof {
            if k == 0 {
                assert(text48(f) =~= rates_text(now, continuous));
            }
        }
        k += 1;
    }
    assert(freqs@.take(freqs@.len() as int) =~= freqs@);
    f
}

/// A record in a line.
pub fn line(record: &Record) -> (r: String)
    requires
        record_ok(record@),
    ensures
        r@ == record_line(record@),
{
    match record {
        Record::Interface { num, alt, endpoints, class, sub, proto } => {
            let mut s = "uac:     iface ".to_owned();
            add_dec(&mut s, *num as u64);
            s.append(" alt ");
            add_dec(&mut s, *alt as u64);
            s.append(": class ");
            add_hex_byte(&mut s, *class);
            s.append("/");
            add_hex_byte(&mut s, *sub);
            s.append("/");
            add_hex_byte(&mut s, *proto);
            s.append(" ");
            add_dec(&mut s, *endpoints as u64);
            s.append(" endpoint(s)");
            s.append(
                if *class == 0x01 && *sub == 0x01 {
                    " (audio control)"
                } else if *class == 0x01 && *sub == 0x02 {
                    " (AUDIO STREAMING)"
                } else if *class == 0x02 {
                    " (CDC control — CI-V)"
                } else if *class == 0x0a {
                    " (CDC data — CI-V)"
                } else {
                    ""
                },
            );
            s
        },
        Record::Endpoint { addr, attr, max_packet, interval } => {
            let mut s = "uac:       ep ".to_owned();
            add_hex_byte(&mut s, *addr);
            s.append(
                if *addr >= 0x80 {
                    " IN  "
                } else {
                    " OUT "
                },
            );
            let kind: u8 = *attr % 4;
            s.append(
                if kind == 0 {
                    "control"
                } else if kind == 1 {
                    "isochronous"
                } else if kind == 2 {
                    "bulk"
                } else {
                    "interrupt"
                },
            );
            s.append(" maxpkt ");
            add_dec(&mut s, *max_packet as u64);
            s.append(" ivl ");
            add_dec(&mut s, *interval as u64);
            s
        },
        Record::Format { ftype, channels, subframe, bits, continuous, freqs } => {
            let mut s = "uac:       fmt type ".to_owned();
            add_dec(&mut s, *ftype as u64);
            s.append(" ");
            add_dec(&mut s, *channels as u64);
            s.append("ch ");
            add_dec(&mut s, *bits as u64);
            s.append("b (sub ");
            add_dec(&mut s, *subframe as u64);
            s.append(") freq ");
            s.append(
                if *continuous {
                    "cont"
                } else {
                    "list"
                },
            );
            s.append("                      [");
            let f = rates(freqs.as_slice(), *continuous);
            s.append(text_str(&f));
            s.append("]");
            s
        },
    }
}

/// Every record of a descriptor can be put in a line.
pub proof fn law_records_have_lines(bytes: Seq<u8>)
    ensures
        forall|i: int| 0 <= i < records(bytes).len() ==> record_ok(#[trigger] records(bytes)[i]),
    decreases bytes.len(),
{
    if !(bytes.len() < 2 || bytes[0] < 2 || bytes[0] > bytes.len()) {
        let len = bytes[0] as int;
        let rest = bytes.skip(len);
        law_records_have_lines(rest);
        let all = records(bytes);
        match record_of(bytes.take(len)) {
            Some(r) => {
                assert(record_ok(r));
                assert forall|i: int| 0 <= i < all.len() implies record_ok(#[trigger] all[i]) by {
                    if i > 0 {
                        assert(all[i] == records(rest)[i - 1]);
                    }
                }
            },
            None => {
                assert(all == records(rest));
            },
        }
    } else {
        assert(records(bytes).len() == 0);
    }
}

/// A record that does not fit ends the walk, and nothing is read past the
/// end: what follows a descriptor does not change the records before it.
pub proof fn law_a_short_tail_is_ignored(bytes: Seq<u8>, tail: Seq<u8>)
    requires
        tail.len() < 2 || tail[0] < 2 || tail[0] > tail.len(),
        chained(bytes),
    ensures
        records(bytes + tail) == records(bytes),
    decreases bytes.len(),
{
    let all = bytes + tail;
    if bytes.len() == 0 {
        assert(all =~= tail);
    } else {
        let len = bytes[0] as int;
        assert(all.take(len) =~= bytes.take(len));
        assert(all.skip(len) =~= bytes.skip(len) + tail);
        law_a_short_tail_is_ignored(bytes.skip(len), tail);
    }
}

/// The records fill the bytes exactly.
pub open spec fn chained(bytes: Seq<u8>) -> bool
    decreases bytes.len(),
{
    bytes.len() == 0 || (bytes.len() >= 2 && 2 <= bytes[0] <= bytes.len() && chained(
        bytes.skip(bytes[0] as int),
    ))
}

/// An interface record of nine bytes says its number and setting, its
/// endpoints, and its class three bytes deep, in that order.
pub proof fn law_an_interface_is_read(
    num: u8,
    alt: u8,
    endpoints: u8,
    class: u8,
    sub: u8,
    proto: u8,
    name: u8,
    rest: Seq<u8>,
)
    ensures
        records(seq![9u8, 4u8, num, alt, endpoints, class, sub, proto, name] + rest) == seq![
            RecordView::Interface { num, alt, endpoints, class, sub, proto },
        ] + records(rest),
{
    let d = seq![9u8, 4u8, num, alt, endpoints, class, sub, proto, name];
    let all = d + rest;
    assert(all.take(9) =~= d);
    assert(all.skip(9) =~= rest);
}

/// An endpoint record of seven bytes says its address, how it transfers, its
/// packet size with the low byte first, and how often it is asked.
pub proof fn law_an_endpoint_is_read(
    addr: u8,
    attr: u8,
    packet: u16,
    interval: u8,
    rest: Seq<u8>,
)
    ensures
        records(
            seq![7u8, 5u8, addr, attr, (packet % 256) as u8, (packet / 256) as u8, interval] + rest,
        ) == seq![RecordView::Endpoint { addr, attr, max_packet: packet, interval }] + records(
            rest,
        ),
{
    let d = seq![7u8, 5u8, addr, attr, (packet % 256) as u8, (packet / 256) as u8, interval];
    let all = d + rest;
    assert(all.take(7) =~= d);
    assert(all.skip(7) =~= rest);
}

/// A format record says its kind, channels, bytes and bits of a sample, and
/// then its rates: as many as its count says, or the two ends of a range if
/// that is zero; four at most, and no more than it has bytes for.
pub proof fn law_a_format_is_read(d: Seq<u8>, rest: Seq<u8>)
    requires
        8 <= d.len() < 256,
        d[0] == d.len(),
        d[1] == 0x24,
        d[2] == 2,
    ensures
        records(d + rest).len() == 1 + records(rest).len(),
        records(d + rest).skip(1) == records(rest),
        ({
            let r = records(d + rest)[0];
            &&& r is Format
            &&& r->ftype == d[3] && r->channels == d[4] && r->subframe == d[5] && r->bits == d[6]
            &&& r->continuous == (d[7] == 0)
            &&& d.len() >= 20 ==> r->freqs.len() == (if d[7] == 0 {
                2
            } else if d[7] == 1 {
                1
            } else if d[7] == 2 {
                2
            } else if d[7] == 3 {
                3
            } else {
                4int
            })
            &&& d[7] >= 1 && d.len() == 8 + 3 * d[7] && d[7] <= 4 ==> r->freqs.len() == d[7]
            &&& d[7] == 0 && d.len() == 14 ==> r->freqs.len() == 2
            &&& 3 * r->freqs.len() <= d.len() - 8
            &&& forall|k: int|
                0 <= k < r->freqs.len() ==> #[trigger] r->freqs[k] == d[8 + 3 * k] + 0x100 * d[9 + 3
                    * k] + 0x1_0000 * d[10 + 3 * k]
        }),
{
    let all = d + rest;
    let n = d.len() as int;
    assert(all.take(n) =~= d);
    assert(all.skip(n) =~= rest);
    let r = record_of(d)->0;
    assert(records(all) == seq![r] + records(rest));
    assert(records(all).skip(1) =~= records(rest));
    assert(records(all)[0] == r);
}

/// Records of any other kind, and those too short for what they would say,
/// are stepped over.
pub proof fn law_other_records_are_stepped_over(d: Seq<u8>, rest: Seq<u8>)
    requires
        2 <= d.len() < 256,
        d[0] == d.len(),
        d[1] == 4 ==> d.len() < 9,
        d[1] == 5 ==> d.len() < 7,
        d[1] == 0x24 ==> d.len() < 8 || d[2] != 2,
    ensures
        records(d + rest) == records(rest),
{
    let all = d + rest;
    let n = d.len() as int;
    assert(all.take(n) =~= d);
    assert(all.skip(n) =~= rest);
}

/// The lowest two bits say how an endpoint transfers, and the highest bit of
/// its address which way.
pub proof fn law_an_endpoint_tells_its_kind(addr: u8, attr: u8, max_packet: u16, interval: u8)
    ensures
        transfer_name(attr) == seq!["control"@, "isochronous"@, "bulk"@, "interrupt"@][attr as int
            % 4],
        record_line(RecordView::Endpoint { addr, attr, max_packet, interval }) == "uac:       ep "@
            + hex_byte(addr) + seq![" OUT "@, " IN  "@][addr as int / 128] + transfer_name(attr)
            + " maxpkt "@ + dec(max_packet as nat) + " ivl "@ + dec(interval as nat),
{
}

}
