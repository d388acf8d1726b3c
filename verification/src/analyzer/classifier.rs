//! Region classifier: preprocessing hints for each window of the input.
use vstd::prelude::*;
use crate::analyzer::entropy;
use crate::analyzer::spread;
use crate::cm::framing;

verus! {

/// Bytes per window.
pub const WINDOW_SIZE: usize = 4096;

/// What to do with one window.
#[derive(Clone, Copy, Debug, Default)]
pub struct Region {
    /// Where the window starts, modulo `2^32`.
    pub offset: u32,
    /// Store the window as it is.
    pub passthrough: bool,
    /// 1 if differences of neighbouring bytes are more regular than the bytes.
    pub use_delta: u8,
    /// Look for a transform.
    pub use_transform: bool,
}

/// Differences of neighbouring bytes.
pub open spec fn differences(w: Seq<u8>) -> Seq<u8> {
    Seq::new(
        if w.len() == 0 { 0 } else { (w.len() - 1) as nat },
        |i: int| ((w[i + 1] - w[i]) % 256) as u8,
    )
}

/// The window is too random to compress.
pub open spec fn incompressible(w: Seq<u8>) -> bool {
    2 * entropy::entropy(w) > 15 * entropy::BIT
}

/// Taking differences saves at least half a bit per byte.
pub open spec fn delta_helps(w: Seq<u8>) -> bool {
    w.len() >= 2 && 2 * entropy::entropy(differences(w)) < 2 * entropy::entropy(w) - entropy::BIT
}

/// The window is structured: less than 6 bits per byte, and not better off with
/// differences.
pub open spec fn structured(w: Seq<u8>) -> bool {
    entropy::entropy(w) < 6 * entropy::BIT && !delta_helps(w)
}

/// What to do with window `w` that starts at `offset`, in a file that is known to be
/// incompressible as a whole or not.
pub open spec fn region(w: Seq<u8>, offset: int, whole: bool) -> Region {
    let raw = whole || incompressible(w);
    Region {
        offset: (offset % 0x1_0000_0000) as u32,
        passthrough: raw,
        use_delta: if !raw && delta_helps(w) { 1 } else { 0 },
        use_transform: !raw && structured(w),
    }
}

/// The hints for every window.
pub open spec fn regions(data: Seq<u8>, whole: bool) -> Seq<Region> {
    Seq::new(
        framing::seg_count(data.len() as int, 4096) as nat,
        |i: int| region(framing::seg_at(data, 4096, i), i * 4096, whole),
    )
}

/// Window `i`: 4096 bytes, or what is left of them at the end.
pub open spec fn window(data: Seq<u8>, i: int) -> Seq<u8> {
    if data.len() - i * 4096 < 4096 {
        data.skip(i * 4096)
    } else {
        data.subrange(i * 4096, i * 4096 + 4096)
    }
}

/// Exactly the windows with more than 7.5 bits per byte are passed through. Data with at
/// most 128 different byte values never is, data in which all values are equally
/// frequent always is.
pub proof fn only_random_windows_pass_through(data: Seq<u8>, i: int, c: nat)
    requires
        0 <= i,
        i * 4096 < data.len(),
    ensures
        ({
            let w = window(data, i);
            let r = regions(data, false)[i];
            &&& i < regions(data, false).len()
            &&& r.passthrough == (2 * entropy::entropy(w) > 15 * 0x10_0000)
            &&& spread::kinds(w, 256) <= 128 ==> !r.passthrough
            &&& c >= 1 && (forall|v: int| 0 <= v < 256 ==> #[trigger] entropy::count(w, v) == c)
                ==> r.passthrough
        }),
{
    let n = data.len() as int;
    assert(i < framing::seg_count(n, 4096)) by (nonlinear_arith)
        requires
            0 <= i * 4096 < n,
            framing::seg_count(n, 4096) == n / 4096 + (if n % 4096 > 0 { 1int } else { 0int }),
    ;
    let w = window(data, i);
    assert(w =~= framing::seg_at(data, 4096, i));
    spread::few_kinds_have_little_entropy(w);
    if c >= 1 && (forall|v: int| 0 <= v < 256 ==> #[trigger] entropy::count(w, v) == c) {
        entropy::uniform_has_eight_bits(w, c);
    }
}

/// A window is searched for a transform exactly if it has less than 6 bits per byte and
/// differences of neighbours do not save half a bit; if they do, that is what is noted.
/// A window that is passed through gets neither hint.
pub proof fn hints_follow_the_entropy(data: Seq<u8>, i: int)
    requires
        0 <= i < regions(data, false).len(),
    ensures
        ({
            let w = framing::seg_at(data, 4096, i);
            let r = regions(data, false)[i];
            let e = entropy::entropy(w);
            let saved = e - entropy::entropy(differences(w));
            let delta = w.len() >= 2 && 2 * saved > 0x10_0000;
            &&& r.offset == i * 4096 % 0x1_0000_0000
            &&& r.use_transform == (e < 6 * 0x10_0000 && !delta)
            &&& r.use_delta == (if delta && !r.passthrough { 1int } else { 0int })
            &&& r.use_transform ==> r.use_delta == 0 && !r.passthrough
        }),
{
}

fn difference(w: &[u8]) -> (r: Vec<u8>)
    ensures
        r@ == differences(w@),
{
    let mut r: Vec<u8> = Vec::new();
    let n: usize = w.len();
    let mut i: usize = 0;
    while i + 1 < n
        invariant
            n == w@.len(),
            i + 1 <= n || n == 0 && i == 0,
            r@.len() == i,
            forall|j: int| 0 <= j < i ==> #[trigger] r@[j] == differences(w@)[j],
        decreases n - i,
    {
        r.push(((w[i + 1] as u32 + 256 - w[i] as u32) % 256) as u8);
        i = i + 1;
    }
    assert(r@ =~= differences(w@));
    r
}

/// Classify one window.
fn classify_window(w: &[u8], offset: u64, whole: bool) -> (r: Region)
    ensures
        r == region(w@, offset as int, whole),
{
    let at: u32 = (offset % 0x1_0000_0000) as u32;
    let e0 = entropy::entropy_bits(w);
    if whole || e0 > 7864320 {
        return Region { offset: at, passthrough: true, use_delta: 0, use_transform: false };
    }
    let delta = difference(w);
    let helps: bool = delta.len() > 0 && {
        let e1 = entropy::entropy_bits(delta.as_slice());
        2 * e1 as u128 + 0x10_0000 < 2 * e0 as u128
    };
    Region {
        offset: at,
        passthrough: false,
        use_delta: if helps {
            1
        } else {
            0
        },
        use_transform: e0 < 6291456 && !helps,
    }
}

/// Classify the input, given whether the file as a whole is known to be
/// incompressible.
pub fn classify_as(data: &[u8], whole: bool) -> (r: Vec<Region>)
    ensures
        r@ == regions(data@, whole),
{
    let n: usize = data.len();
    let ghost goal = regions(data@, whole);
    let mut r: Vec<Region> = Vec::new();
    let mut at: usize = 0;
    while at < n
        invariant
            n == data@.len(),
            goal == regions(data@, whole),
            at <= n,
            at < n ==> at == r@.len() * 4096,
            at >= n ==> r@.len() == goal.len(),
            r@.len() <= goal.len(),
            r@ == goal.take(r@.len() as int),
        decreases n - at,
    {
        let end: usize = if WINDOW_SIZE < n - at {
            at + WINDOW_SIZE
        } else {
            n
        };
        let ghost was = r@;
        let ghost i = r@.len() as int;
        let w = &data[at..end];
        assert(w@ == framing::seg_at(data@, 4096, i));
        r.push(classify_window(w, at as u64, whole));
        assert(goal[i] == region(framing::seg_at(data@, 4096, i), i * 4096, whole));
        assert(r@ =~= goal.take(i + 1));
        at = end;
    }
    assert(goal.take(goal.len() as int) =~= goal);
    r
}

/// Classify the input window by window.
pub fn classify(data: &[u8]) -> (r: Vec<Region>)
    ensures
        r@ == regions(data@, false),
{
    classify_as(data, false)
}

} // verus!
