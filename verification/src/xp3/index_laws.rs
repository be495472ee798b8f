//! Every well-formed record reads back as itself from the bytes it is
//! written as.

use vstd::prelude::*;
use vstd::bytes::*;
use crate::encoding::{
    encode_utf16, lemma_decode_encode_utf16, lemma_le_units_of_bytes, units_le_bytes,
};
use crate::xp3::index::{
    adler_bytes, adlr_magic, entry_bytes, entry_wf, file_bytes, file_magic, header_bytes,
    header_wf, index_bytes, info_bytes, info_magic, info_wf, parse_adler_at, parse_entries_from,
    parse_entry_at, parse_file_at, parse_header_at, parse_info_at, parse_segment_at,
    segm_magic, segment_bytes, segment_entries_bytes, segment_entry_at, segment_entry_bytes,
    segment_wf, FileIndexAdler32, FileIndexEntryView, FileIndexFile, FileIndexHeader,
    FileIndexInfoView, FileIndexSegmentView,
};
use crate::xp3::le::{le_u16_at, le_u32_at, le_u64_at};

verus! {

/// `t` stands at position `p` of `s`.
pub open spec fn located(s: Seq<u8>, p: int, t: Seq<u8>) -> bool {
    0 <= p && p + t.len() <= s.len() && s.subrange(p, p + t.len()) == t
}

pub proof fn lemma_located_split(s: Seq<u8>, p: int, t1: Seq<u8>, t2: Seq<u8>)
    requires
        located(s, p, t1 + t2),
    ensures
        located(s, p, t1),
        located(s, p + t1.len(), t2),
{
    let t = t1 + t2;
    let whole = s.subrange(p, p + t.len());
    assert forall|j: int| 0 <= j < t1.len() implies #[trigger] s.subrange(p, p + t1.len())[j]
        == t1[j] by {
        assert(whole[j] == t[j]);
    }
    assert(s.subrange(p, p + t1.len()) =~= t1);
    assert forall|j: int| 0 <= j < t2.len() implies #[trigger] s.subrange(
        p + t1.len(),
        p + t1.len() + t2.len(),
    )[j] == t2[j] by {
        assert(whole[t1.len() + j] == t[t1.len() + j]);
    }
    assert(s.subrange(p + t1.len(), p + t1.len() + t2.len()) =~= t2);
}

proof fn lemma_read_le(s: Seq<u8>, p: int)
    ensures
        forall|x: u16| #[trigger]
            located(s, p, spec_u16_to_le_bytes(x)) ==> le_u16_at(s, p) == x,
        forall|x: u32| #[trigger]
            located(s, p, spec_u32_to_le_bytes(x)) ==> le_u32_at(s, p) == x,
        forall|x: u64| #[trigger]
            located(s, p, spec_u64_to_le_bytes(x)) ==> le_u64_at(s, p) == x,
        forall|x: u16| #[trigger] spec_u16_to_le_bytes(x).len() == 2,
        forall|x: u32| #[trigger] spec_u32_to_le_bytes(x).len() == 4,
        forall|x: u64| #[trigger] spec_u64_to_le_bytes(x).len() == 8,
{
    lemma_auto_spec_u16_to_from_le_bytes();
    lemma_auto_spec_u32_to_from_le_bytes();
    lemma_auto_spec_u64_to_from_le_bytes();
}

/// A well-formed index header reads back as itself.
pub proof fn lemma_header_roundtrip(s: Seq<u8>, p: int, h: FileIndexHeader)
    requires
        header_wf(h),
        located(s, p, header_bytes(h)),
    ensures
        parse_header_at(s, p) == Some((h, header_bytes(h).len() as int)),
{
    lemma_read_le(s, p + 1);
    lemma_read_le(s, p + 9);
    let rest = match h.raw_size {
        Some(r) => spec_u64_to_le_bytes(r),
        None => Seq::<u8>::empty(),
    };
    assert(header_bytes(h) == seq![h.compression_flag] + spec_u64_to_le_bytes(h.compression_size)
        + rest);
    lemma_located_split(s, p, seq![h.compression_flag] + spec_u64_to_le_bytes(h.compression_size), rest);
    lemma_located_split(s, p, seq![h.compression_flag], spec_u64_to_le_bytes(h.compression_size));
    assert(s[p] == s.subrange(p, p + 1)[0]);
}

/// A `File` record reads back as itself.
pub proof fn lemma_file_roundtrip(s: Seq<u8>, p: int, f: FileIndexFile)
    requires
        located(s, p, file_bytes(f)),
    ensures
        parse_file_at(s, p) == Some((f, file_bytes(f).len() as int)),
{
    lemma_read_le(s, p + 4);
    lemma_located_split(s, p, file_magic(), spec_u64_to_le_bytes(f.entry_size));
}

/// An `adlr` record reads back as itself.
pub proof fn lemma_adler_roundtrip(s: Seq<u8>, p: int, a: FileIndexAdler32)
    requires
        located(s, p, adler_bytes(a)),
    ensures
        parse_adler_at(s, p) == Some((a, adler_bytes(a).len() as int)),
{
    lemma_read_le(s, p + 12);
    lemma_located_split(s, p, adlr_magic(), spec_u32_to_le_bytes(a.adler32));
}

/// A well-formed `info` record reads back as itself.
pub proof fn lemma_info_roundtrip(s: Seq<u8>, p: int, i: FileIndexInfoView)
    requires
        info_wf(i),
        located(s, p, info_bytes(i)),
    ensures
        parse_info_at(s, p) == Some((i, info_bytes(i).len() as int)),
{
    lemma_read_le(s, p + 4);
    lemma_read_le(s, p + 12);
    lemma_read_le(s, p + 16);
    lemma_read_le(s, p + 24);
    lemma_read_le(s, p + 32);
    let m = info_magic();
    let b1 = spec_u64_to_le_bytes(i.entry_size);
    let b2 = spec_u32_to_le_bytes(i.flag);
    let b3 = spec_u64_to_le_bytes(i.raw_size);
    let b4 = spec_u64_to_le_bytes(i.compressed_size);
    let b5 = spec_u16_to_le_bytes(i.name_length);
    let units = encode_utf16(i.name);
    let b6 = units_le_bytes(units);
    lemma_located_split(s, p, m + b1 + b2 + b3 + b4 + b5, b6);
    lemma_located_split(s, p, m + b1 + b2 + b3 + b4, b5);
    lemma_located_split(s, p, m + b1 + b2 + b3, b4);
    lemma_located_split(s, p, m + b1 + b2, b3);
    lemma_located_split(s, p, m + b1, b2);
    lemma_located_split(s, p, m, b1);
    assert(le_u16_at(s, p + 32) == i.name_length);
    assert(b6.len() == 2 * (i.name_length as int));
    lemma_le_units_of_bytes(units);
    lemma_decode_encode_utf16(i.name);
}

/// A well-formed `segm` record reads back as itself.
pub proof fn lemma_segment_roundtrip(s: Seq<u8>, p: int, g: FileIndexSegmentView)
    requires
        segment_wf(g),
        located(s, p, segment_bytes(g)),
    ensures
        parse_segment_at(s, p) == Some((g, segment_bytes(g).len() as int)),
{
    lemma_read_le(s, p + 4);
    let eb = segment_entries_bytes(g.segment);
    lemma_located_split(s, p, segm_magic() + spec_u64_to_le_bytes(g.segment_size), eb);
    lemma_located_split(s, p, segm_magic(), spec_u64_to_le_bytes(g.segment_size));
    let n = g.segment.len() as int;
    assert(le_u64_at(s, p + 4) == g.segment_size);
    assert((g.segment_size / 28) as int == n);
    assert forall|k: int| 0 <= k < n implies #[trigger] segment_entry_at(s, p + 12 + 28 * k)
        == g.segment[k] by {
        let e = g.segment[k];
        let q = p + 12 + 28 * k;
        lemma_read_le(s, q);
        lemma_read_le(s, q + 4);
        lemma_read_le(s, q + 12);
        lemma_read_le(s, q + 20);
        assert(segment_entry_bytes(e).len() == 28);
        assert(q + 28 <= p + 12 + eb.len());
        assert forall|r: int| 0 <= r < 28 implies #[trigger] s.subrange(q, q + 28)[r]
            == segment_entry_bytes(e)[r] by {
            assert((28 * k + r) / 28 == k);
            assert((28 * k + r) % 28 == r);
            assert(eb[28 * k + r] == segment_entry_bytes(e)[r]);
            assert(s.subrange(p + 12, p + 12 + eb.len())[28 * k + r] == eb[28 * k + r]);
        }
        let b0 = spec_u32_to_le_bytes(e.flag);
        let b1 = spec_u64_to_le_bytes(e.offset);
        let b2 = spec_u64_to_le_bytes(e.raw_size);
        let b3 = spec_u64_to_le_bytes(e.compressed_size);
        assert(s.subrange(q, q + 28) =~= segment_entry_bytes(e));
        lemma_located_split(s, q, b0 + b1 + b2, b3);
        lemma_located_split(s, q, b0 + b1, b2);
        lemma_located_split(s, q, b0, b1);
    }
    let parsed = Seq::new(n as nat, |k: int| segment_entry_at(s, p + 12 + 28 * k));
    assert(parsed =~= g.segment);
}

/// A well-formed entry reads back as itself.
pub proof fn lemma_entry_roundtrip(s: Seq<u8>, p: int, e: FileIndexEntryView)
    requires
        entry_wf(e),
        located(s, p, entry_bytes(e)),
    ensures
        parse_entry_at(s, p) == Some((e, entry_bytes(e).len() as int)),
{
    let fb = file_bytes(e.file);
    let ib = info_bytes(e.info);
    let gb = segment_bytes(e.segment);
    let ab = adler_bytes(e.adler32);
    lemma_located_split(s, p, fb + ib + gb, ab);
    lemma_located_split(s, p, fb + ib, gb);
    lemma_located_split(s, p, fb, ib);
    lemma_file_roundtrip(s, p, e.file);
    lemma_info_roundtrip(s, p + fb.len(), e.info);
    lemma_segment_roundtrip(s, p + fb.len() + ib.len(), e.segment);
    lemma_adler_roundtrip(s, p + fb.len() + ib.len() + gb.len(), e.adler32);
}

/// Well-formed entries, standing at the end of the bytes, read back as
/// themselves.
pub proof fn lemma_entries_roundtrip(s: Seq<u8>, p: int, es: Seq<FileIndexEntryView>)
    requires
        forall|i: int| 0 <= i < es.len() ==> #[trigger] entry_wf(es[i]),
        located(s, p, index_bytes(es)),
        p + index_bytes(es).len() == s.len(),
    ensures
        parse_entries_from(s, p) == Some(es),
    decreases es.len(),
{
    if es.len() > 0 {
        let e = es[0];
        let eb = entry_bytes(e);
        let rest = index_bytes(es.drop_first());
        assert(entry_wf(es[0]));
        lemma_located_split(s, p, eb, rest);
        lemma_entry_roundtrip(s, p, e);
        assert(eb.len() >= 4) by {
            assert(eb == file_magic() + spec_u64_to_le_bytes(e.file.entry_size) + info_bytes(e.info)
                + segment_bytes(e.segment) + adler_bytes(e.adler32));
        }
        assert forall|i: int| 0 <= i < es.drop_first().len() implies #[trigger] entry_wf(
            es.drop_first()[i],
        ) by {
            assert(entry_wf(es[i + 1]));
        }
        lemma_entries_roundtrip(s, p + eb.len(), es.drop_first());
        assert(seq![e] + es.drop_first() =~= es);
    } else {
        assert(p == s.len());
    }
}

/// The bytes of entries with one more at the end.
pub proof fn lemma_index_bytes_push(es: Seq<FileIndexEntryView>, e: FileIndexEntryView)
    ensures
        index_bytes(es.push(e)) == index_bytes(es) + entry_bytes(e),
    decreases es.len(),
{
    if es.len() == 0 {
        assert(es.push(e).drop_first() =~= Seq::<FileIndexEntryView>::empty());
        assert(index_bytes(Seq::<FileIndexEntryView>::empty()) == Seq::<u8>::empty());
        assert(es.push(e)[0] == e);
        assert(index_bytes(es.push(e)) =~= entry_bytes(e));
        assert(index_bytes(es) + entry_bytes(e) =~= entry_bytes(e));
    } else {
        lemma_index_bytes_push(es.drop_first(), e);
        assert(es.push(e).drop_first() =~= es.drop_first().push(e));
        assert(index_bytes(es.push(e)) =~= entry_bytes(es[0]) + (index_bytes(es.drop_first())
            + entry_bytes(e)));
    }
}

} // verus!
