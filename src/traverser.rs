//! A key-seeded walk over the (pixel, channel) positions of an image that
//! visits each position at most once.
use rand::Rng;
use rand::SeedableRng;
use rand_chacha::ChaCha20Rng;
use sha2::Digest;
use sha2::Sha256;
use vstd::prelude::*;
use vstd::utf8::encode_utf8;

verus! {

/// The SHA-256 digest of `bytes`.
pub uninterp spec fn sha256_of(bytes: Seq<u8>) -> Seq<u8>;

/// The value that a ChaCha20 generator keyed by `seed`, resumed at word
/// `word_pos` of its stream, draws uniformly from `0..bound`, together with
/// the word position after the draw.
pub uninterp spec fn chacha_draw(seed: Seq<u8>, word_pos: u128, bound: usize) -> (usize, u128);

/// Relies on sha2's `Sha256::digest`: the 32-byte SHA-256 digest of `bytes`.
#[verifier::external_body]
fn sha256_digest(bytes: &[u8]) -> (r: [u8; 32])
    ensures
        r@ == sha256_of(bytes@),
{
    Sha256::digest(bytes).into()
}

/// Relies on rand's `Rng::random_range` over rand_chacha's `ChaCha20Rng`,
/// resumed with `set_word_pos` at `word_pos` of the stream that `seed` keys:
/// the value lies in `0..bound`, and it and the position that `get_word_pos`
/// gives after the draw depend on these three arguments alone.
#[verifier::external_body]
fn draw_below(seed: &[u8; 32], word_pos: u128, bound: usize) -> (r: (usize, u128))
    requires
        bound > 0,
    ensures
        r.0 < bound,
        r == chacha_draw(seed@, word_pos, bound),
{
    let mut rng = ChaCha20Rng::from_seed(*seed);
    rng.set_word_pos(word_pos);
    let value = rng.random_range(0..bound);
    (value, rng.get_word_pos())
}

/// The seed that a key gives: the digest of its UTF-8 bytes.
pub open spec fn seed_of(key: Seq<char>) -> Seq<u8> {
    sha256_of(encode_utf8(key))
}

/// The key text in effect: the given key, or the empty text.
pub open spec fn key_text(key: Option<String>) -> Seq<char> {
    match key {
        Some(k) => k@,
        None => Seq::empty(),
    }
}

fn string_to_seed_32(s: &str) -> (r: [u8; 32])
    ensures
        r@ == seed_of(s@),
{
    sha256_digest(s.as_bytes())
}

/// Everything that decides what a traversal yields from here on.
pub struct TraversalState {
    pub width: u32,
    pub height: u32,
    pub channels: Seq<u8>,
    pub seed: Seq<u8>,
    pub word_pos: u128,
    /// Pixels (as row-major indices) that still have channels left, each
    /// with the channels not yet yielded.
    pub pool: Seq<(usize, Seq<u8>)>,
}

impl TraversalState {
    /// Every pool entry is a pixel of the image with a channel left.
    pub open spec fn wf(self) -> bool {
        forall|i: int|
            0 <= i < self.pool.len() ==> (#[trigger] self.pool[i]).0 < self.width * self.height
                && self.pool[i].1.len() > 0
    }
}

/// The position `(x, y, channel)` of a channel of pixel `pixel`.
pub open spec fn cell(width: u32, pixel: usize, channel: u8) -> (u32, u32, u8) {
    ((pixel as int % width as int) as u32, (pixel as int / width as int) as u32, channel)
}

/// The state of a traversal seeded with `seed` that has yielded nothing yet:
/// every pixel, in order, with all the channels.
pub open spec fn seeded_state(width: u32, height: u32, channels: Seq<u8>, seed: Seq<u8>) -> TraversalState {
    TraversalState {
        width,
        height,
        channels,
        seed,
        word_pos: 0,
        pool: Seq::new((width * height) as nat, |i: int| (i as usize, channels)),
    }
}

/// The state of a traversal keyed by `key` that has yielded nothing yet.
pub open spec fn initial_state(width: u32, height: u32, channels: Seq<u8>, key: Seq<char>) -> TraversalState {
    seeded_state(width, height, channels, seed_of(key))
}

/// Taking channel `ci` of pool entry `i`: the position it names, and the
/// state without it (an entry left without channels leaves the pool).
pub open spec fn take(s: TraversalState, i: int, ci: int) -> ((u32, u32, u8), TraversalState) {
    let entry = s.pool[i];
    let rest = entry.1.remove(ci);
    let pool = if rest.len() == 0 {
        s.pool.remove(i)
    } else {
        s.pool.update(i, (entry.0, rest))
    };
    (cell(s.width, entry.0, entry.1[ci]), TraversalState { pool, ..s })
}

/// One draw: what `next` yields in state `s`, and the state after it. An
/// entry of the pool is drawn, then one of its channels (no draw when only
/// one is left), and that channel is taken. (A draw is always below its
/// bound; the reduction keeps this definition total.)
pub open spec fn step(s: TraversalState) -> (Option<(u32, u32, u8)>, TraversalState) {
    if s.pool.len() == 0 {
        (None, s)
    } else {
        let (i0, pos1) = chacha_draw(s.seed, s.word_pos, s.pool.len() as usize);
        let i = i0 as int % s.pool.len() as int;
        let chans = s.pool[i].1;
        let (c0, pos2) = if chans.len() == 1 {
            (0usize, pos1)
        } else {
            chacha_draw(s.seed, pos1, chans.len() as usize)
        };
        let ci = c0 as int % chans.len() as int;
        let (t, after) = take(s, i, ci);
        (Some(t), TraversalState { word_pos: pos2, ..after })
    }
}

/// The first `n` positions that a traversal from `s` yields, and the state
/// after them.
pub open spec fn walk(s: TraversalState, n: nat) -> (Seq<(u32, u32, u8)>, TraversalState)
    decreases n,
{
    if n == 0 {
        (Seq::empty(), s)
    } else {
        let (prev, mid) = walk(s, (n - 1) as nat);
        match step(mid).0 {
            Some(p) => (prev.push(p), step(mid).1),
            None => (prev, mid),
        }
    }
}

proof fn lemma_pixel_in_grid(pixel: int, width: int, height: int)
    requires
        0 <= pixel < width * height,
        0 <= width,
        0 <= height,
    ensures
        width > 0,
        pixel % width < width,
        pixel / width < height,
{
    assert(width > 0) by (nonlinear_arith)
        requires
            0 <= pixel < width * height,
            0 <= width,
            0 <= height,
    ;
    vstd::arithmetic::div_mod::lemma_fundamental_div_mod(pixel, width);
    assert(pixel / width < height) by (nonlinear_arith)
        requires
            pixel == width * (pixel / width) + pixel % width,
            0 <= pixel % width,
            pixel < width * height,
            width > 0,
    ;
}

/// How many positions the pool still holds.
pub open spec fn pending_count(pool: Seq<(usize, Seq<u8>)>) -> nat
    decreases pool.len(),
{
    if pool.len() == 0 {
        0
    } else {
        pending_count(pool.drop_last()) + pool.last().1.len()
    }
}

/// The pixel index of a position `(x, y, channel)`.
pub open spec fn pixel_of(width: u32, t: (u32, u32, u8)) -> int {
    t.1 * width + t.0
}

/// Position `t` is no longer in the pool of `s`.
pub open spec fn absent(s: TraversalState, t: (u32, u32, u8)) -> bool {
    forall|i: int|
        0 <= i < s.pool.len() && (#[trigger] s.pool[i]).0 == pixel_of(s.width, t) ==> !s.pool[i].1.contains(
            t.2,
        )
}

/// Pool entries name distinct pixels, their channel lists hold no repeats,
/// and every channel listed is one of the traversal's channels.
pub open spec fn distinct_entries(s: TraversalState) -> bool {
    &&& forall|i: int, j: int|
        0 <= i < j < s.pool.len() ==> (#[trigger] s.pool[i]).0 != (#[trigger] s.pool[j]).0
    &&& forall|i: int| 0 <= i < s.pool.len() ==> (#[trigger] s.pool[i]).1.no_duplicates()
    &&& forall|i: int, j: int|
        0 <= i < s.pool.len() && 0 <= j < s.pool[i].1.len() ==> s.channels.contains(
            #[trigger] s.pool[i].1[j],
        )
}

/// Position `t` lies in the image and uses one of the traversal's channels.
pub open spec fn in_grid(s: TraversalState, t: (u32, u32, u8)) -> bool {
    t.0 < s.width && t.1 < s.height && s.channels.contains(t.2)
}

proof fn lemma_count_concat(a: Seq<(usize, Seq<u8>)>, b: Seq<(usize, Seq<u8>)>)
    ensures
        pending_count(a + b) == pending_count(a) + pending_count(b),
    decreases b.len(),
{
    if b.len() == 0 {
        assert(a + b =~= a);
    } else {
        assert((a + b).drop_last() =~= a + b.drop_last());
        lemma_count_concat(a, b.drop_last());
    }
}

proof fn lemma_count_single(x: (usize, Seq<u8>))
    ensures
        pending_count(seq![x]) == x.1.len(),
{
    assert(seq![x].drop_last() =~= Seq::<(usize, Seq<u8>)>::empty());
    assert(pending_count(Seq::<(usize, Seq<u8>)>::empty()) == 0);
    assert(seq![x].last() == x);
}

proof fn lemma_count_replace(pool: Seq<(usize, Seq<u8>)>, i: int, x: (usize, Seq<u8>))
    requires
        0 <= i < pool.len(),
    ensures
        pending_count(pool) == pending_count(pool.remove(i)) + pool[i].1.len(),
        pending_count(pool.update(i, x)) == pending_count(pool.remove(i)) + x.1.len(),
{
    let pre = pool.subrange(0, i);
    let post = pool.subrange(i + 1, pool.len() as int);
    assert(pool =~= pre + seq![pool[i]] + post);
    assert(pool.remove(i) =~= pre + post);
    assert(pool.update(i, x) =~= pre + seq![x] + post);
    lemma_count_concat(pre + seq![pool[i]], post);
    lemma_count_concat(pre, seq![pool[i]]);
    lemma_count_concat(pre + seq![x], post);
    lemma_count_concat(pre, seq![x]);
    lemma_count_concat(pre, post);
    lemma_count_single(pool[i]);
    lemma_count_single(x);
}

proof fn lemma_cell_pixel(width: u32, height: u32, pixel: usize, c: u8)
    requires
        pixel < width * height,
    ensures
        pixel_of(width, cell(width, pixel, c)) == pixel,
        cell(width, pixel, c).0 < width,
        cell(width, pixel, c).1 < height,
{
    lemma_pixel_in_grid(pixel as int, width as int, height as int);
    vstd::arithmetic::div_mod::lemma_fundamental_div_mod(pixel as int, width as int);
    assert(pixel as int / width as int * width as int == width as int * (pixel as int / width as int)) by (nonlinear_arith);
}

proof fn lemma_grid_cell(width: u32, pixel: usize, t: (u32, u32, u8))
    requires
        t.0 < width,
        pixel == pixel_of(width, t),
    ensures
        cell(width, pixel, t.2) == t,
{
    vstd::arithmetic::div_mod::lemma_fundamental_div_mod_converse(
        pixel_of(width, t),
        width as int,
        t.1 as int,
        t.0 as int,
    );
}

/// One step out of a well-formed state with positions left yields a
/// position of the grid that was in the pool and is not afterwards; nothing
/// else leaves the pool, and nothing enters it.
pub proof fn lemma_step(s: TraversalState)
    requires
        s.wf(),
        distinct_entries(s),
        s.pool.len() > 0,
    ensures
        step(s).0 is Some,
        !absent(s, step(s).0->0),
        absent(step(s).1, step(s).0->0),
        in_grid(s, step(s).0->0),
        forall|t: (u32, u32, u8)| absent(s, t) ==> absent(step(s).1, t),
        forall|t: (u32, u32, u8)|
            in_grid(s, t) && !absent(s, t) && t != step(s).0->0 ==> !absent(step(s).1, t),
        step(s).1.wf(),
        distinct_entries(step(s).1),
        pending_count(step(s).1.pool) + 1 == pending_count(s.pool),
        step(s).1.width == s.width,
        step(s).1.height == s.height,
        step(s).1.channels == s.channels,
        step(s).1.seed == s.seed,
{
    let (i0, pos1) = chacha_draw(s.seed, s.word_pos, s.pool.len() as usize);
    let i = i0 as int % s.pool.len() as int;
    vstd::arithmetic::div_mod::lemma_mod_bound(i0 as int, s.pool.len() as int);
    let entry = s.pool[i];
    let chans = entry.1;
    let (c0, pos2) = if chans.len() == 1 {
        (0usize, pos1)
    } else {
        chacha_draw(s.seed, pos1, chans.len() as usize)
    };
    let ci = c0 as int % chans.len() as int;
    vstd::arithmetic::div_mod::lemma_mod_bound(c0 as int, chans.len() as int);
    let rest = chans.remove(ci);
    let t = cell(s.width, entry.0, chans[ci]);
    let s2 = step(s).1;
    assert(step(s).0 == Some(t));
    lemma_cell_pixel(s.width, s.height, entry.0, chans[ci]);
    assert(s.pool[i].1.contains(chans[ci]));
    assert(!absent(s, t));
    assert(in_grid(s, t));
    assert forall|k: int| 0 <= k < rest.len() implies #[trigger] rest[k] != chans[ci] by {
        if k < ci {
            assert(rest[k] == chans[k]);
        } else {
            assert(rest[k] == chans[k + 1]);
        }
    }
    assert(rest.no_duplicates()) by {
        assert forall|a: int, b: int| 0 <= a < b < rest.len() implies rest[a] != rest[b] by {
            let ia = if a < ci { a } else { a + 1 };
            let ib = if b < ci { b } else { b + 1 };
            assert(rest[a] == chans[ia]);
            assert(rest[b] == chans[ib]);
        }
    }
    assert forall|c: u8| rest.contains(c) implies chans.contains(c) by {
        let k = choose|k: int| 0 <= k < rest.len() && rest[k] == c;
        if k < ci {
            assert(chans[k] == c);
        } else {
            assert(chans[k + 1] == c);
        }
    }
    lemma_count_replace(s.pool, i, (entry.0, rest));
    // Each entry of the new pool is an entry of the old one, or the drawn
    // entry with the drawn channel gone.
    let src = |k: int| if rest.len() == 0 && k >= i { k + 1 } else { k };
    assert forall|k: int| 0 <= k < s2.pool.len() implies {
        &&& 0 <= src(k) < s.pool.len()
        &&& (#[trigger] s2.pool[k]).0 == s.pool[src(k)].0
        &&& (src(k) == i ==> s2.pool[k].1 == rest)
        &&& (src(k) != i ==> s2.pool[k].1 == s.pool[src(k)].1)
    } by {}
    assert(s2.wf());
    assert forall|t2: (u32, u32, u8)| absent(s, t2) implies absent(s2, t2) by {
        assert forall|k: int|
            0 <= k < s2.pool.len() && (#[trigger] s2.pool[k]).0 == pixel_of(s2.width, t2) implies !s2.pool[k].1.contains(t2.2) by {
            let j = src(k);
            assert(s.pool[j].0 == pixel_of(s.width, t2));
            if j == i {
                if s2.pool[k].1.contains(t2.2) {
                    assert(chans.contains(t2.2));
                }
            }
        }
    }
    assert forall|k: int|
        0 <= k < s2.pool.len() && (#[trigger] s2.pool[k]).0 == pixel_of(s2.width, t) implies !s2.pool[k].1.contains(t.2) by {
        let j = src(k);
        if j != i {
            assert(s.pool[j].0 != s.pool[i].0);
        }
    }
    assert forall|t2: (u32, u32, u8)| in_grid(s, t2) && !absent(s, t2) && t2 != t implies !absent(s2, t2) by {
        let j = choose|j: int|
            0 <= j < s.pool.len() && (#[trigger] s.pool[j]).0 == pixel_of(s.width, t2) && s.pool[j].1.contains(t2.2);
        if j == i {
            lemma_grid_cell(s.width, entry.0, t2);
            assert(t2 == cell(s.width, entry.0, t2.2));
            let k = choose|k: int| 0 <= k < chans.len() && chans[k] == t2.2;
            assert(k != ci);
            let kr = if k < ci { k } else { k - 1 };
            assert(rest[kr] == t2.2);
            assert(s2.pool[i] == (entry.0, rest));
            assert(s2.pool[i].1.contains(t2.2));
        } else {
            let k = if rest.len() == 0 && j > i { j - 1 } else { j };
            assert(src(k) == j);
            assert(s2.pool[k].1 == s.pool[j].1);
            assert(s2.pool[k].1.contains(t2.2));
        }
    }
    assert(distinct_entries(s2)) by {
        assert forall|a: int, b: int| 0 <= a < b < s2.pool.len() implies (#[trigger] s2.pool[a]).0
            != (#[trigger] s2.pool[b]).0 by {
            assert(s.pool[src(a)].0 != s.pool[src(b)].0);
        }
        assert forall|k: int, j: int|
            0 <= k < s2.pool.len() && 0 <= j < s2.pool[k].1.len() implies s2.channels.contains(
            #[trigger] s2.pool[k].1[j],
        ) by {
            let c = s2.pool[k].1[j];
            if src(k) == i {
                assert(rest.contains(c));
                assert(chans.contains(c));
            } else {
                assert(s.pool[src(k)].1.contains(c));
            }
        }
    }
}

/// The first `n` draws out of a well-formed state that holds at least `n`
/// positions yield `n` distinct positions of the grid, none of which is left
/// in the pool afterwards.
pub proof fn lemma_walk(s: TraversalState, n: nat)
    requires
        s.wf(),
        distinct_entries(s),
        n <= pending_count(s.pool),
    ensures
        walk(s, n).0.len() == n,
        walk(s, n).0.no_duplicates(),
        forall|k: int| 0 <= k < n ==> in_grid(s, #[trigger] walk(s, n).0[k]),
        forall|k: int| 0 <= k < n ==> absent(walk(s, n).1, #[trigger] walk(s, n).0[k]),
        forall|t: (u32, u32, u8)|
            in_grid(s, t) && !absent(s, t) ==> walk(s, n).0.contains(t) || !absent(walk(s, n).1, t),
        walk(s, n).1.wf(),
        distinct_entries(walk(s, n).1),
        pending_count(walk(s, n).1.pool) + n == pending_count(s.pool),
        walk(s, n).1.width == s.width,
        walk(s, n).1.height == s.height,
        walk(s, n).1.channels == s.channels,
        walk(s, n).1.seed == s.seed,
    decreases n,
{
    if n > 0 {
        lemma_walk(s, (n - 1) as nat);
        let (prev, mid) = walk(s, (n - 1) as nat);
        if mid.pool.len() == 0 {
            assert(pending_count(mid.pool) == 0);
        }
        lemma_step(mid);
        let t = step(mid).0->0;
        let ys = walk(s, n).0;
        assert(ys == prev.push(t));
        assert forall|k: int| 0 <= k < n - 1 implies prev[k] != t by {
            assert(absent(mid, prev[k]));
        }
        assert forall|a: int, b: int| 0 <= a < b < ys.len() implies ys[a] != ys[b] by {
            if b == n - 1 {
                assert(prev[a] != t);
            } else {
                assert(prev.no_duplicates());
            }
        }
        assert forall|t2: (u32, u32, u8)| in_grid(s, t2) && !absent(s, t2) implies ys.contains(t2) || !absent(
            walk(s, n).1,
            t2,
        ) by {
            if prev.contains(t2) {
                let k = choose|k: int| 0 <= k < prev.len() && prev[k] == t2;
                assert(ys[k] == t2);
            } else if t2 == t {
                assert(ys[n - 1] == t2);
            }
        }
        assert forall|k: int| 0 <= k < n implies in_grid(s, #[trigger] ys[k]) && absent(walk(s, n).1, ys[k]) by {
            if k < n - 1 {
                assert(ys[k] == prev[k]);
                assert(absent(mid, prev[k]));
            }
        }
    }
}

/// What `m` draws yield is the start of what `n >= m` draws yield.
pub proof fn lemma_walk_prefix(s: TraversalState, m: nat, n: nat)
    requires
        m <= n,
    ensures
        walk(s, m).0.len() <= walk(s, n).0.len(),
        forall|k: int| 0 <= k < walk(s, m).0.len() ==> #[trigger] walk(s, n).0[k] == walk(s, m).0[k],
    decreases n,
{
    if m < n {
        lemma_walk_prefix(s, m, (n - 1) as nat);
    }
}

proof fn lemma_count_uniform(n: nat, channels: Seq<u8>)
    ensures
        pending_count(Seq::new(n, |i: int| (i as usize, channels))) == n * channels.len(),
    decreases n,
{
    let pool = Seq::new(n, |i: int| (i as usize, channels));
    if n > 0 {
        assert(pool.drop_last() =~= Seq::new((n - 1) as nat, |i: int| (i as usize, channels)));
        lemma_count_uniform((n - 1) as nat, channels);
        assert(pool.last().1 == channels);
        assert(n * channels.len() == (n - 1) * channels.len() + channels.len()) by (nonlinear_arith);
        assert(pending_count(pool) == pending_count(pool.drop_last()) + pool.last().1.len());
    } else {
        assert(pool.len() == 0);
    }
}

/// A fresh traversal is well formed and holds `width * height` times as
/// many positions as there are channels.
pub proof fn lemma_initial_state(width: u32, height: u32, channels: Seq<u8>, key: Seq<char>)
    requires
        width * height <= usize::MAX,
        channels.len() > 0,
        channels.no_duplicates(),
    ensures
        initial_state(width, height, channels, key).wf(),
        distinct_entries(initial_state(width, height, channels, key)),
        pending_count(initial_state(width, height, channels, key).pool) == width * height * channels.len(),
{
    let s = initial_state(width, height, channels, key);
    lemma_count_uniform((width * height) as nat, channels);
    assert forall|i: int, j: int|
        0 <= i < s.pool.len() && 0 <= j < s.pool[i].1.len() implies s.channels.contains(
        #[trigger] s.pool[i].1[j],
    ) by {
        assert(s.pool[i].1 == channels);
    }
}

proof fn lemma_pixel_of_in_image(width: u32, height: u32, t: (u32, u32, u8))
    requires
        t.0 < width,
        t.1 < height,
    ensures
        0 <= pixel_of(width, t) < width * height,
{
    assert(0 <= t.1 * width + t.0 < width * height) by (nonlinear_arith)
        requires
            t.0 < width,
            t.1 < height,
    ;
}

/// A full traversal of a `width` by `height` image over distinct `channels`
/// yields `width * height * channels.len()` positions of the image, no two
/// alike and every position among them, and then nothing more.
pub proof fn lemma_full_traversal(width: u32, height: u32, channels: Seq<u8>, key: Seq<char>)
    requires
        width * height <= usize::MAX,
        channels.len() > 0,
        channels.no_duplicates(),
    ensures
        ({
            let s = initial_state(width, height, channels, key);
            let total = (width * height * channels.len()) as nat;
            let positions = walk(s, total).0;
            &&& positions.len() == total
            &&& positions.no_duplicates()
            &&& forall|k: int| 0 <= k < total ==> #[trigger] positions[k].0 < width && positions[k].1 < height
                && channels.contains(positions[k].2)
            &&& forall|t: (u32, u32, u8)| t.0 < width && t.1 < height && channels.contains(t.2) ==> positions.contains(t)
            &&& step(walk(s, total).1).0 is None
        }),
{
    let s = initial_state(width, height, channels, key);
    let total = (width * height * channels.len()) as nat;
    lemma_initial_state(width, height, channels, key);
    lemma_walk(s, total);
    let last = walk(s, total).1;
    if last.pool.len() > 0 {
        lemma_count_replace(last.pool, 0, last.pool[0]);
    }
    assert forall|k: int| 0 <= k < total implies #[trigger] walk(s, total).0[k].0 < width && walk(s, total).0[k].1 < height
        && channels.contains(walk(s, total).0[k].2) by {
        assert(in_grid(s, walk(s, total).0[k]));
    }
    assert forall|t: (u32, u32, u8)| t.0 < width && t.1 < height && channels.contains(t.2) implies walk(s, total).0.contains(t) by {
        let p = pixel_of(width, t);
        lemma_pixel_of_in_image(width, height, t);
        assert(s.pool[p] == (p as usize, channels));
        assert(!absent(s, t));
        assert(in_grid(s, t));
    }
}

/// Two traversals set up alike (image size, channels, key) yield the same
/// positions, however many are drawn.
pub proof fn lemma_same_setup_same_walk(
    width: u32,
    height: u32,
    channels: Seq<u8>,
    key_a: Seq<char>,
    key_b: Seq<char>,
    n: nat,
)
    requires
        key_a == key_b,
    ensures
        walk(initial_state(width, height, channels, key_a), n) == walk(
            initial_state(width, height, channels, key_b),
            n,
        ),
{
}

/// A seeded generator of unique (x, y, channel) positions.
pub struct Traverser {
    /// The generator's key; together with `word_pos` this is the whole
    /// state of its ChaCha20 stream.
    seed: [u8; 32],
    word_pos: u128,
    area: Vec<(usize, Vec<u8>)>,
    dimensions: (u32, u32, Vec<u8>),
}

impl Traverser {
    /// The traversal state this traverser is in.
    pub closed spec fn state(&self) -> TraversalState {
        TraversalState {
            width: self.dimensions.0,
            height: self.dimensions.1,
            channels: self.dimensions.2@,
            seed: self.seed@,
            word_pos: self.word_pos,
            pool: self.area@.map_values(|e: (usize, Vec<u8>)| (e.0, e.1@)),
        }
    }

    /// The traverser's state is well formed.
    pub closed spec fn inv(&self) -> bool {
        self.state().wf()
    }

    /// A traverser over all `channels` of every pixel of a `width` by
    /// `height` image, seeded from `key` (no key reads as the empty key).
    pub fn new(dimensions: (u32, u32, Vec<u8>), key: Option<String>) -> (r: Traverser)
        requires
            dimensions.0 * dimensions.1 <= usize::MAX,
            dimensions.2@.len() > 0,
        ensures
            r.inv(),
            r.state() == initial_state(dimensions.0, dimensions.1, dimensions.2@, key_text(key)),
    {
        let seed = match &key {
            None => {
                proof {
                    reveal_strlit("");
                }
                string_to_seed_32("")
            },
            Some(x) => string_to_seed_32(x.as_str()),
        };
        Traverser::with_seed(dimensions, seed)
    }

    /// A traverser over all `channels` of every pixel of a `width` by
    /// `height` image, with its generator keyed by `seed`.
    pub fn with_seed(dimensions: (u32, u32, Vec<u8>), seed: [u8; 32]) -> (r: Traverser)
        requires
            dimensions.0 * dimensions.1 <= usize::MAX,
            dimensions.2@.len() > 0,
        ensures
            r.inv(),
            r.state() == seeded_state(dimensions.0, dimensions.1, dimensions.2@, seed@),
    {
        let pixels: usize = dimensions.0 as usize * dimensions.1 as usize;
        let mut area: Vec<(usize, Vec<u8>)> = Vec::with_capacity(pixels);
        let mut i: usize = 0;
        while i < pixels
            invariant
                i <= pixels,
                area@.len() == i,
                forall|k: int|
                    0 <= k < i ==> (#[trigger] area@[k]).0 == k && area@[k].1@ == dimensions.2@,
            decreases pixels - i,
        {
            let channels = dimensions.2.clone();
            assert(channels@ =~= dimensions.2@);
            area.push((i, channels));
            i = i + 1;
        }
        let r = Traverser { seed, word_pos: 0, area, dimensions };
        assert(r.state().pool =~= seeded_state(r.dimensions.0, r.dimensions.1, r.dimensions.2@, seed@).pool);
        r
    }

    /// Takes channel `color_index` of pool entry `index` (the choice that
    /// `next` makes at random) and returns its position.
    pub fn take_at(&mut self, index: usize, color_index: usize) -> (r: (u32, u32, u8))
        requires
            old(self).inv(),
            index < old(self).state().pool.len(),
            color_index < old(self).state().pool[index as int].1.len(),
        ensures
            final(self).inv(),
            (r, final(self).state()) == take(old(self).state(), index as int, color_index as int),
    {
        let ghost s = self.state();
        let ghost old_area = self.area@;
        let ghost i = index as int;
        let ghost entry = s.pool[i];
        assert(entry.1 == old_area[i].1@);
        let color = self.area[index].1.remove(color_index);
        let pixel = self.area[index].0;
        let ghost rest = entry.1.remove(color_index as int);
        assert(self.area@[i].1@ == rest);
        assert(self.area@ == old_area.update(i, (pixel, self.area@[i].1)));
        if self.area[index].1.len() == 0 {
            self.area.remove(index);
            assert(self.state().pool =~= s.pool.remove(i));
        } else {
            assert(self.state().pool =~= s.pool.update(i, (entry.0, rest)));
        }
        let width = self.dimensions.0 as usize;
        proof {
            lemma_pixel_in_grid(pixel as int, s.width as int, s.height as int);
        }
        ((pixel % width) as u32, (pixel / width) as u32, color)
    }

    /// The next position of the walk, or `None` once every position has
    /// been yielded.
    pub fn next(&mut self) -> (r: Option<(u32, u32, u8)>)
        requires
            old(self).inv(),
        ensures
            final(self).inv(),
            (r, final(self).state()) == step(old(self).state()),
    {
        if self.area.len() == 0 {
            return None;
        }
        let ghost s = self.state();
        let (index, pos1) = draw_below(&self.seed, self.word_pos, self.area.len());
        let count = self.area[index].1.len();
        proof {
            vstd::arithmetic::div_mod::lemma_small_mod(index as nat, s.pool.len());
            assert(s.pool[index as int].1 == self.area@[index as int].1@);
        }
        let color_index: usize;
        let pos2: u128;
        if count == 1 {
            color_index = 0;
            pos2 = pos1;
        } else {
            let (c, p) = draw_below(&self.seed, pos1, count);
            color_index = c;
            pos2 = p;
            proof {
                vstd::arithmetic::div_mod::lemma_small_mod(c as nat, count as nat);
            }
        }
        let position = self.take_at(index, color_index);
        self.word_pos = pos2;
        Some(position)
    }
}

} // verus!
