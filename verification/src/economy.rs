//! What compression is worth: archives of runs are smaller than the runs.
use vstd::prelude::*;
use crate::analyzer::entropy;
use crate::bytes;
use crate::cm::framing;
use crate::cm::levels;
use crate::cm::segment;
use crate::cm::segment::Profile;
use crate::cm::thrift;
use crate::cm::thrift::run;
use crate::codec;
use crate::transform::search;
use crate::transform::textdict;

verus! {

proof fn lemma_cut(n: int, seg: int, i: int)
    requires
        n > 0,
        seg > 0,
        0 <= i < framing::seg_count(n, seg),
    ensures
        0 <= i * seg < n,
        i * seg + framing::seg_len(n, seg, i) <= n,
        framing::seg_len(n, seg, i) > 0,
        i + 1 == framing::seg_count(n, seg) ==> i * seg + framing::seg_len(n, seg, i) == n,
        i + 1 < framing::seg_count(n, seg) ==> framing::seg_len(n, seg, i) == seg,
{
    let c = framing::seg_count(n, seg);
    vstd::arithmetic::div_mod::lemma_fundamental_div_mod(n, seg);
    vstd::arithmetic::div_mod::lemma_mod_bound(n, seg);
    assert((c - 1) * seg < n <= c * seg) by (nonlinear_arith)
        requires
            n == seg * (n / seg) + n % seg,
            0 <= n % seg < seg,
            c == n / seg + (if n % seg > 0 { 1int } else { 0int }),
    ;
    assert(0 <= i * seg <= (c - 1) * seg) by (nonlinear_arith)
        requires
            0 <= i <= c - 1,
            seg > 0,
    ;
    assert((i + 1) * seg == i * seg + seg) by (nonlinear_arith);
    if i + 1 < c {
        assert((i + 1) * seg <= (c - 1) * seg) by (nonlinear_arith)
            requires
                i + 1 <= c - 1,
                seg > 0,
        ;
    }
}

proof fn lemma_counts(n: int, seg: int)
    requires
        n > 0,
        seg > 0,
    ensures
        1 <= framing::seg_count(n, seg),
        framing::seg_count(n, seg) * seg < n + seg,
{
    let c = framing::seg_count(n, seg);
    vstd::arithmetic::div_mod::lemma_fundamental_div_mod(n, seg);
    vstd::arithmetic::div_mod::lemma_mod_bound(n, seg);
    assert(c * seg < n + seg && 1 <= c) by (nonlinear_arith)
        requires
            n == seg * (n / seg) + n % seg,
            0 <= n % seg < seg,
            c == n / seg + (if n % seg > 0 { 1int } else { 0int }),
            n > 0,
            seg > 0,
    ;
}

/// Every piece of a run is a run.
proof fn lemma_piece(b: bool, n: nat, seg: int, i: int)
    requires
        n > 0,
        seg > 0,
        0 <= i < framing::seg_count(n as int, seg),
    ensures
        framing::seg_at(run(b, n), seg, i) == run(b, framing::seg_len(n as int, seg, i) as nat),
{
    lemma_cut(n as int, seg, i);
    assert(framing::seg_at(run(b, n), seg, i) =~= run(
        b,
        framing::seg_len(n as int, seg, i) as nat,
    ));
}

/// Nothing is done to a block of a run.
proof fn lemma_tags(b: bool, n: nat, level: u8, i: int)
    requires
        n > 0,
        0 <= i < codec::block_count(n as int),
    ensures
        codec::tags(run(b, n), level)[i] == 0,
{
    let d = run(b, n);
    lemma_piece(b, n, 4096, i);
    let w = codec::block_at(d, i);
    entropy::constant_has_no_entropy(w, thrift::solid(b));
    codec::blocks_are_tagged_by_what_helps(d, level, i);
    let t = codec::tags(d, level)[i];
    if 1 <= t < 0xFF {
        let e = entropy::entropy(search::candidate_ops()[t - 1].applied(w));
        assert((0 - e) * w.len() <= 0) by (nonlinear_arith)
            requires
                e >= 0,
                w.len() >= 0,
        ;
    }
}

proof fn lemma_mixed(b: bool, n: nat, level: u8, k: int)
    requires
        n > 0,
        0 <= k <= codec::block_count(n as int),
    ensures
        ({
            let m = codec::mixed_parts(run(b, n), level);
            let r = codec::raw_parts(run(b, n), level);
            &&& framing::joined(r, k).len() == 0
            &&& k < codec::block_count(n as int) ==> framing::joined(m, k) == run(
                b,
                (k * 4096) as nat,
            )
            &&& k == codec::block_count(n as int) ==> framing::joined(m, k) == run(b, n)
        }),
    decreases k,
{
    let m = codec::mixed_parts(run(b, n), level);
    lemma_counts(n as int, 4096);
    if k > 0 {
        lemma_mixed(b, n, level, k - 1);
        lemma_tags(b, n, level, k - 1);
        lemma_piece(b, n, 4096, k - 1);
        lemma_cut(n as int, 4096, k - 1);
        let len = framing::seg_len(n as int, 4096, k - 1);
        assert(m[k - 1] == run(b, len as nat));
        assert(framing::joined(m, k) =~= run(b, ((k - 1) * 4096 + len) as nat));
    } else {
        assert(framing::joined(m, 0) =~= run(b, 0));
    }
}

proof fn lemma_no_text(b: bool, n: nat, i: int, step: int)
    requires
        i >= 0,
        step > 0,
    ensures
        textdict::textual_from(run(b, n), i, step) == 0,
        textdict::samples_from(n as int, i, step) >= 0,
        i < n ==> textdict::samples_from(n as int, i, step) > 0,
    decreases n + step - i,
{
    if i < n {
        lemma_no_text(b, n, i + step, step);
    }
}

proof fn lemma_codes(b: bool, n: nat, seg: int, prof: Profile, k: int)
    requires
        n > 0,
        seg > 0,
        0 <= k <= framing::seg_count(n as int, seg),
    ensures
        ({
            let c = framing::codes(run(b, n), seg, prof);
            &&& framing::lengths(c, k).len() == 4 * k
            &&& k < framing::seg_count(n as int, seg) ==> 136 * framing::joined(c, k).len() <= 128 * (k
                * seg) + 706 * k
            &&& k == framing::seg_count(n as int, seg) ==> 136 * framing::joined(c, k).len() <= 128 * n
                + 706 * k
        }),
    decreases k,
{
    let c = framing::codes(run(b, n), seg, prof);
    lemma_counts(n as int, seg);
    if k > 0 {
        lemma_codes(b, n, seg, prof, k - 1);
        lemma_piece(b, n, seg, k - 1);
        lemma_cut(n as int, seg, k - 1);
        let len = framing::seg_len(n as int, seg, k - 1);
        thrift::runs_are_compressed(b, len as nat, prof);
        assert(c[k - 1] == segment::segment_code(run(b, len as nat), prof));
        lemma_width(c[k - 1].len(), 4);
        assert(k * seg == (k - 1) * seg + seg) by (nonlinear_arith);
    } else {
        assert(0 * seg == 0);
    }
}

proof fn lemma_width(v: nat, k: nat)
    ensures
        bytes::le(v, k).len() == k,
    decreases k,
{
    if k > 0 {
        lemma_width(v / 256, (k - 1) as nat);
    }
}

/// At every level, the archive of a run of zeros, or of bytes with all bits set, is
/// smaller than the run from 879 bytes on, header and tables included.
pub proof fn runs_make_small_archives(b: bool, n: nat, level: u8, v: Seq<u8>)
    requires
        n > 0,
        codec::compressed(run(b, n), level, v),
    ensures
        136 * v.len() <= 129 * n + 6146,
        n >= 879 ==> v.len() < n,
{
    let d = run(b, n);
    let s = levels::settings_of(level);
    let m = codec::mixed_bytes(d, level);
    let count = codec::block_count(n as int);
    lemma_counts(n as int, 4096);
    lemma_mixed(b, n, level, count);
    assert(m == d);
    let x = choose|x: Option<Seq<u8>>| #[trigger]
        levels::prepared(m, s, x) && v == codec::archive(d, level, levels::payload_of(m, s, x));
    lemma_no_text(b, n, 0, textdict::sample_step(n as int));
    assert(x is None);
    let seg = s.seg_size as int;
    let c = framing::codes(d, seg, s.prof);
    let k = framing::seg_count(n as int, seg);
    lemma_counts(n as int, seg);
    lemma_codes(b, n, seg, s.prof, k);
    lemma_width(c.len(), 4);
    lemma_width(s.seg_size as nat, 4);
    lemma_width(n, 8);
    lemma_width(codec::tags(d, level).len(), 4);
    lemma_width(codec::raw_bytes(d, level).len(), 4);
    lemma_width(crate::checksum::crc32_of(d) as nat, 4);
    let p = levels::payload_of(m, s, x);
    assert(p.len() == 9 + 4 * k + framing::joined(c, k).len());
    assert(v.len() == 26 + count + p.len());
    assert(k * 0x10_0000 < n + 0x10_0000) by (nonlinear_arith)
        requires
            k * seg < n + seg,
            seg >= 0x10_0000,
            k >= 1,
    ;
}

} // verus!
