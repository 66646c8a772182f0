//! Trigram signatures, Jaccard similarity over them, and an index of named
//! items searched by similarity.

use vstd::prelude::*;

verus! {

/// Three consecutive characters of a padded, lowercased string.
pub type Trigram = (char, char, char);

/// A similarity score as the exact fraction `num / den`.
#[derive(Clone, Copy, Debug, PartialEq, Eq, Structural)]
pub struct Score {
    pub num: u64,
    pub den: u64,
}

impl Score {
    /// A score is a fraction in `[0, 1]` with a positive denominator.
    pub open spec fn wf(self) -> bool {
        self.den > 0 && self.num <= self.den
    }

    /// `self >= other` as fractions.
    pub open spec fn ge(self, other: Score) -> bool {
        self.num as int * other.den as int >= other.num as int * self.den as int
    }

    /// The score is exactly one.
    pub open spec fn is_one(self) -> bool {
        self.den > 0 && self.num == self.den
    }

    pub fn new(num: u64, den: u64) -> (r: Score)
        ensures
            r.num == num,
            r.den == den,
    {
        Score { num, den }
    }

    /// Compares two fractions with positive denominators.
    pub fn at_least(&self, other: &Score) -> (r: bool)
        ensures
            r == self.ge(*other),
    {
        proof {
            lemma_mul_fits(self.num, other.den);
            lemma_mul_fits(other.num, self.den);
        }
        let a: u128 = self.num as u128 * other.den as u128;
        let b: u128 = other.num as u128 * self.den as u128;
        a >= b
    }
}

proof fn lemma_mul_fits(a: u64, b: u64)
    ensures
        a as int * b as int <= u128::MAX,
{
    assert(a as int * b as int <= 0xffff_ffff_ffff_ffffint * 0xffff_ffff_ffff_ffffint)
        by (nonlinear_arith)
        requires
            a <= 0xffff_ffff_ffff_ffffint,
            b <= 0xffff_ffff_ffff_ffffint,
    ;
}

/// `>=` on fractions with positive denominators is transitive.
pub proof fn lemma_ge_transitive(a: Score, b: Score, c: Score)
    requires
        a.den > 0,
        b.den > 0,
        c.den > 0,
        a.ge(b),
        b.ge(c),
    ensures
        a.ge(c),
{
    let (an, ad, bn, bd, cn, cd) = (
        a.num as int,
        a.den as int,
        b.num as int,
        b.den as int,
        c.num as int,
        c.den as int,
    );
    assert(an * bd * cd >= bn * ad * cd) by (nonlinear_arith)
        requires
            an * bd >= bn * ad,
            cd > 0,
    ;
    assert(bn * cd * ad >= cn * bd * ad) by (nonlinear_arith)
        requires
            bn * cd >= cn * bd,
            ad > 0,
    ;
    assert(an * cd * bd >= cn * ad * bd) by (nonlinear_arith)
        requires
            an * bd * cd >= bn * ad * cd,
            bn * cd * ad >= cn * bd * ad,
    ;
    assert(an * cd >= cn * ad) by (nonlinear_arith)
        requires
            an * cd * bd >= cn * ad * bd,
            bd > 0,
    ;
}

/// `>=` on fractions with positive denominators is total.
pub proof fn lemma_ge_total(a: Score, b: Score)
    ensures
        a.ge(b) || b.ge(a),
{
}

/// What `str::to_lowercase` makes of a string.
pub uninterp spec fn lower_of(s: Seq<char>) -> Seq<char>;

/// Relies on `str::to_lowercase`: its result depends on the characters alone.
#[verifier::external_body]
fn lowercase_chars(s: &str) -> (r: Vec<char>)
    ensures
        r@ == lower_of(s@),
{
    s.to_lowercase().chars().collect()
}

/// A string with two spaces on each side.
pub open spec fn padded(s: Seq<char>) -> Seq<char> {
    seq![' ', ' '] + s + seq![' ', ' ']
}

/// The windows of three characters of `t`, in order.
pub open spec fn windows(t: Seq<char>) -> Seq<Trigram> {
    Seq::new((t.len() - 2) as nat, |i: int| (t[i], t[i + 1], t[i + 2]))
}

/// The trigram signature of a string: the set of windows of three characters of
/// the lowercased string padded with two spaces on each side.
pub open spec fn signature(s: Seq<char>) -> Set<Trigram> {
    windows(padded(lower_of(s))).to_set()
}

/// Whether `v` holds `w`.
fn holds(v: &Vec<Trigram>, w: Trigram) -> (r: bool)
    ensures
        r == v@.contains(w),
{
    let mut i: usize = 0;
    while i < v.len()
        invariant
            i <= v.len(),
            forall|j: int| 0 <= j < i ==> v@[j] != w,
        decreases v.len() - i,
    {
        let x = v[i];
        if x.0 == w.0 && x.1 == w.1 && x.2 == w.2 {
            return true;
        }
        i += 1;
    }
    false
}

/// The trigram signature of `s`, each trigram once.
pub fn trigrams(s: &str) -> (r: Vec<Trigram>)
    ensures
        r@.no_duplicates(),
        r@.to_set() == signature(s@),
{
    let low = lowercase_chars(s);
    trigrams_of_lowered(&low)
}

/// The windows of three characters of `low` padded with two spaces on each
/// side, each once.
pub fn trigrams_of_lowered(low: &Vec<char>) -> (r: Vec<Trigram>)
    ensures
        r@.no_duplicates(),
        r@.to_set() == windows(padded(low@)).to_set(),
{
    let mut p: Vec<char> = Vec::new();
    p.push(' ');
    p.push(' ');
    let mut i: usize = 0;
    while i < low.len()
        invariant
            i <= low.len(),
            p@ == seq![' ', ' '] + low@.take(i as int),
        decreases low.len() - i,
    {
        p.push(low[i]);
        i += 1;
        assert(low@.take(i as int) == low@.take(i - 1).push(low@[i - 1]));
    }
    assert(low@.take(low.len() as int) == low@);
    p.push(' ');
    p.push(' ');
    assert(p@ == padded(low@));
    let ghost win = windows(p@);
    let mut r: Vec<Trigram> = Vec::new();
    let mut k: usize = 0;
    while k + 2 < p.len()
        invariant
            p.len() >= 4,
            k <= p.len() - 2,
            win == windows(p@),
            r@.no_duplicates(),
            forall|w: Trigram| r@.contains(w) <==> exists|j: int| 0 <= j < k && win[j] == w,
        decreases p.len() - k,
    {
        let w = (p[k], p[k + 1], p[k + 2]);
        assert(w == win[k as int]);
        let ghost r0 = r@;
        if !holds(&r, w) {
            r.push(w);
            assert(r@ == r0.push(w));
            assert(r@[r@.len() - 1] == w);
            assert forall|x: Trigram| r0.contains(x) implies r@.contains(x) by {
                let j = choose|j: int| 0 <= j < r0.len() && r0[j] == x;
                assert(r@[j] == x);
            }
            assert forall|x: Trigram| r@.contains(x) implies r0.contains(x) || x == w by {
                let j = choose|j: int| 0 <= j < r@.len() && r@[j] == x;
                if j < r0.len() {
                    assert(r0[j] == x);
                }
            }
        }
        assert(r@.contains(w));
        k += 1;
        assert forall|x: Trigram| r@.contains(x) <==> exists|j: int| 0 <= j < k && win[j] == x by {
            if r@.contains(x) {
                if r0.contains(x) {
                    let j = choose|j: int| 0 <= j < k - 1 && win[j] == x;
                    assert(0 <= j < k && win[j] == x);
                } else {
                    assert(x == w);
                    assert(win[k - 1] == x);
                }
            }
            if exists|j: int| 0 <= j < k && win[j] == x {
                let j = choose|j: int| 0 <= j < k && win[j] == x;
                if j < k - 1 {
                    assert(r0.contains(x));
                } else {
                    assert(x == w);
                }
            }
        }
    }
    assert(r@.to_set() =~= win.to_set()) by {
        assert forall|x: Trigram| r@.to_set().contains(x) <==> win.to_set().contains(x) by {
            if win.contains(x) {
                let j = choose|j: int| 0 <= j < win.len() && win[j] == x;
                assert(j < k);
            }
        }
    }
    r
}

/// `r` is the Jaccard similarity of `a` and `b`: the size of their intersection
/// over the size of their union, and zero when both are empty.
pub open spec fn is_similarity(r: Score, a: Set<Trigram>, b: Set<Trigram>) -> bool {
    if (a + b).len() == 0 {
        r.num == 0 && r.den == 1
    } else {
        r.num == a.intersect(b).len() && r.den == (a + b).len()
    }
}

/// The Jaccard similarity of `a` and `b` as a score.
pub open spec fn similarity(a: Set<Trigram>, b: Set<Trigram>) -> Score {
    if (a + b).len() == 0 {
        Score { num: 0, den: 1 }
    } else {
        Score { num: a.intersect(b).len() as u64, den: (a + b).len() as u64 }
    }
}

/// A score passes the threshold `min`: a zero threshold asks for any positive
/// score, a positive one for a score at least as high.
pub open spec fn passes(s: Score, min: Score) -> bool {
    if min.num == 0 {
        s.num > 0
    } else {
        s.ge(min)
    }
}

/// The Jaccard similarity of two trigram signatures given each without repeats.
pub fn trigram_similarity(a: &Vec<Trigram>, b: &Vec<Trigram>) -> (r: Score)
    requires
        a@.no_duplicates(),
        b@.no_duplicates(),
        a@.len() + b@.len() <= u64::MAX,
    ensures
        is_similarity(r, a@.to_set(), b@.to_set()),
        r == similarity(a@.to_set(), b@.to_set()),
        r == similarity(b@.to_set(), a@.to_set()),
        r.wf(),
        a@.to_set() == b@.to_set() && a@.len() > 0 ==> r.is_one(),
        a@.to_set().disjoint(b@.to_set()) ==> r.num == 0,
{
    broadcast use vstd::seq_lib::seq_to_set_is_finite;
    broadcast use vstd::set_lib::lemma_set_intersect_union_lens;
    let ghost bs = b@.to_set();
    let mut cnt: usize = 0;
    let mut i: usize = 0;
    assert(a@.take(0).to_set().intersect(bs) =~= Set::empty());
    while i < a.len()
        invariant
            i <= a.len(),
            a@.no_duplicates(),
            bs == b@.to_set(),
            cnt <= i,
            cnt == a@.take(i as int).to_set().intersect(bs).len(),
        decreases a.len() - i,
    {
        let ghost before = a@.take(i as int).to_set();
        let x = a[i];
        assert(a@.take(i + 1) == a@.take(i as int).push(x));
        assert(a@.take(i + 1).to_set() =~= before.insert(x)) by {
            a@.take(i as int).lemma_push_to_set_commute(x);
        }
        assert(!before.contains(x)) by {
            if before.contains(x) {
                let j = choose|j: int| 0 <= j < i && a@.take(i as int)[j] == x;
                assert(a@[j] == a@[i as int]);
            }
        }
        if holds(b, x) {
            assert(before.insert(x).intersect(bs) =~= before.intersect(bs).insert(x));
            cnt += 1;
        } else {
            assert(before.insert(x).intersect(bs) =~= before.intersect(bs));
        }
        i += 1;
    }
    assert(a@.take(a.len() as int) == a@);
    let ghost as_ = a@.to_set();
    proof {
        a@.unique_seq_to_set();
        b@.unique_seq_to_set();
        vstd::set_lib::lemma_len_subset(as_.intersect(bs), as_);
        vstd::set_lib::lemma_len_subset(as_.intersect(bs), bs);
    }
    proof {
        assert((as_ + bs).len() + as_.intersect(bs).len() == as_.len() + bs.len());
        lemma_similarity_laws(as_, bs);
        if as_ == bs && a@.len() > 0 {
            lemma_similarity_laws(as_, as_);
        }
    }
    let union: u64 = (a.len() as u64 - cnt as u64) + b.len() as u64;
    if union == 0 {
        Score { num: 0, den: 1 }
    } else {
        Score { num: cnt as u64, den: union }
    }
}

/// Something known by one or more names, the first of which is its key.
pub trait Named {
    spec fn name_seq(&self) -> Seq<String>;

    fn names(&self) -> (r: &[String])
        ensures
            r@ == self.name_seq(),
    ;
}

/// The key of a named item: its first name.
pub open spec fn primary<T: Named>(t: T) -> Seq<char> {
    t.name_seq()[0]@
}

/// Each name of `t` tagged with the key of `t`.
pub open spec fn tagged_names<T: Named>(t: T) -> Seq<(Seq<char>, Seq<char>)> {
    t.name_seq().map_values(|n: String| (primary(t), n@))
}

/// Every name of every item, in order, each tagged with its item's key.
pub open spec fn alias_list<T: Named>(items: Seq<T>) -> Seq<(Seq<char>, Seq<char>)>
    decreases items.len(),
{
    if items.len() == 0 {
        Seq::empty()
    } else {
        alias_list(items.drop_last()) + tagged_names(items.last())
    }
}

/// Some item has no name.
pub open spec fn some_unnamed<T: Named>(items: Seq<T>) -> bool {
    exists|j: int| 0 <= j < items.len() && items[j].name_seq().len() == 0
}

/// `t` is the last of `items` whose key is `key`.
pub open spec fn last_with_key<T: Named>(items: Seq<T>, key: Seq<char>, t: T) -> bool {
    exists|j: int|
        0 <= j < items.len() && items[j] == t && primary(t) == key && forall|j2: int|
            j < j2 < items.len() ==> primary(items[j2]) != key
}

/// Why an index could not be built.
#[derive(Clone, Copy, Debug, PartialEq, Eq, Structural)]
pub enum BuildError {
    /// An item has no name.
    NoNames,
}

/// An item found by a search, with its score.
pub struct Match<T> {
    pub item: T,
    pub score: Score,
}

/// A similarity index over named items. Each item is kept under its key (a
/// later item with the same key replaces an earlier one), and each name of each
/// item is kept with its trigram signature and the position of its item. The
/// fields can be read; `new` establishes `wf`, which the searches require.
#[derive(Debug)]
pub struct Trigrams<T> {
    pub item_map: Vec<T>,
    pub keys: Vec<String>,
    pub trigrams: Vec<(usize, Vec<Trigram>)>,
}

impl<T: Named> Trigrams<T> {
    /// Items and keys line up, keys are distinct, every signature belongs to an
    /// item and holds each trigram once.
    pub open spec fn wf(&self) -> bool {
        table_wf(self.keys@, self.item_map@, self.trigrams@)
    }

    /// The items kept, one per key.
    pub open spec fn items(&self) -> Seq<T> {
        self.item_map@
    }

    /// The number of stored names.
    pub open spec fn pair_count(&self) -> nat {
        self.trigrams@.len()
    }

    /// The position of the item of the `k`-th stored name.
    pub open spec fn pair_item(&self, k: int) -> int {
        self.trigrams@[k].0 as int
    }

    /// The signature of the `k`-th stored name.
    pub open spec fn pair_signature(&self, k: int) -> Set<Trigram> {
        self.trigrams@[k].1@.to_set()
    }

    /// Number of trigrams of the `k`-th stored name.
    pub open spec fn pair_size(&self, k: int) -> nat {
        self.trigrams@[k].1@.len()
    }

    /// What building from `items` yields: every item keyed by its first name
    /// (the last one wins on a shared key), and every name, in order, stored
    /// with its signature and the item of its key.
    pub open spec fn built_from(&self, items: Seq<T>) -> bool {
        table_built(self.keys@, self.item_map@, self.trigrams@, items)
    }

    /// Builds the index; fails when an item has no name.
    pub fn new(items: Vec<T>) -> (r: Result<Self, BuildError>)
        ensures
            r is Err <==> some_unnamed(items@),
            r matches Ok(t) ==> t.built_from(items@) && t.wf(),
    {
        let ghost orig = items@;
        let mut rest = items;
        let mut item_map: Vec<T> = Vec::new();
        let mut keys: Vec<String> = Vec::new();
        let mut trigram_list: Vec<(usize, Vec<Trigram>)> = Vec::new();
        let mut done: usize = 0;
        assert(orig.take(0) =~= Seq::empty());
        assert(alias_list(orig.take(0)) =~= Seq::empty());
        assert(orig.skip(0) =~= orig);
        let total: usize = rest.len();
        assert(orig.len() == total);
        #[verifier::loop_isolation(false)]
        while rest.len() > 0
            invariant
                done + rest.len() == orig.len(),
                orig.len() <= usize::MAX,
                rest@ == orig.skip(done as int),
                !some_unnamed(orig.take(done as int)),
                table_built(keys@, item_map@, trigram_list@, orig.take(done as int)),
            decreases rest.len(),
        {
            let ghost pre = orig.take(done as int);
            let ghost post = orig.take(done + 1);
            let ghost keys0 = keys@;
            let ghost map0 = item_map@;
            let ghost list0 = trigram_list@;
            let item = rest.remove(0);
            assert(item == orig[done as int]);
            assert(post == pre.push(item));
            let names = item.names();
            if names.len() == 0 {
                assert(some_unnamed(orig));
                return Err(BuildError::NoNames);
            }
            assert(!some_unnamed(post)) by {
                assert forall|j: int| 0 <= j < post.len() implies post[j].name_seq().len() != 0 by {
                    if j < pre.len() {
                        assert(post[j] == pre[j]);
                    }
                }
            }
            let tag = names[0].clone();
            let found = find_key(&keys, &tag);
            let pos: usize = match found {
                Some(p) => p,
                None => keys.len(),
            };
            let ghost tn = tagged_names(item);
            let mut n: usize = 0;
            while n < names.len()
                invariant
                    n <= names.len(),
                    names@ == item.name_seq(),
                    tn == tagged_names(item),
                    trigram_list@.len() == list0.len() + n,
                    forall|k: int| 0 <= k < list0.len() ==> #[trigger] trigram_list@[k] == list0[k],
                    forall|m: int|
                        0 <= m < n ==> (#[trigger] trigram_list@[list0.len() + m]).0 == pos
                            && trigram_list@[list0.len() + m].1@.no_duplicates()
                            && trigram_list@[list0.len() + m].1@.to_set() == signature(tn[m].1),
                decreases names.len() - n,
            {
                let sig = trigrams(names[n].as_str());
                trigram_list.push((pos, sig));
                n += 1;
            }
            match found {
                Some(p) => {
                    item_map[p] = item;
                    proof {
                        lemma_build_step(keys0, map0, list0, pre, item, keys@, item_map@, trigram_list@, pos as int, false);
                    }
                },
                None => {
                    item_map.push(item);
                    keys.push(tag);
                    proof {
                        lemma_build_step(keys0, map0, list0, pre, item, keys@, item_map@, trigram_list@, pos as int, true);
                    }
                },
            }
            done += 1;
        }
        assert(orig.take(done as int) == orig);
        Ok(Trigrams { item_map, keys, trigrams: trigram_list })
    }

    /// The similarity of the `k`-th stored name to the query `q`.
    pub open spec fn pair_score(&self, k: int, q: Seq<char>) -> Score {
        similarity(self.pair_signature(k), signature(q))
    }

    /// The `k`-th stored name can be scored against `q` in 64-bit counts.
    pub open spec fn scorable(&self, k: int, q: Seq<char>) -> bool {
        self.pair_size(k) + signature(q).len() <= u64::MAX
    }

    /// The `k`-th stored name is a match for `q` at threshold `min`.
    pub open spec fn kept(&self, k: int, q: Seq<char>, min: Score) -> bool {
        self.scorable(k, q) && passes(self.pair_score(k, q), min)
    }

    /// How many of the first `n` stored names match `q` at threshold `min`.
    pub open spec fn kept_count(&self, q: Seq<char>, min: Score, n: int) -> nat
        decreases n,
    {
        if n <= 0 {
            0
        } else {
            self.kept_count(q, min, n - 1) + if self.kept(n - 1, q, min) {
                1nat
            } else {
                0nat
            }
        }
    }

    /// `hits` (stored name, score) is a best-first ranking of the matches for
    /// `q` at threshold `min`, cut to `limit`: every hit is a match with its
    /// score, no name twice, scores never rising, as many hits as matches up to
    /// `limit`, and no match left out that beats a hit.
    pub open spec fn is_ranking(
        &self,
        q: Seq<char>,
        limit: int,
        min: Score,
        hits: Seq<(usize, Score)>,
    ) -> bool {
        let total: nat = self.kept_count(q, min, self.pair_count() as int);
        &&& hits.len() == if limit < total {
            limit
        } else {
            total as int
        }
        &&& forall|j: int|
            #![trigger hits[j]]
            0 <= j < hits.len() ==> hits[j].0 < self.pair_count() && self.kept(
                hits[j].0 as int,
                q,
                min,
            ) && hits[j].1 == self.pair_score(hits[j].0 as int, q)
        &&& forall|a: int, b: int|
            #![trigger hits[a], hits[b]]
            0 <= a < hits.len() && 0 <= b < hits.len() && a != b ==> hits[a].0 != hits[b].0
        &&& forall|a: int, b: int|
            #![trigger hits[a], hits[b]]
            0 <= a < b < hits.len() ==> hits[a].1.ge(hits[b].1)
        &&& forall|k: int|
            #![trigger self.kept(k, q, min)]
            0 <= k < self.pair_count() && self.kept(k, q, min) && (forall|j: int|
                0 <= j < hits.len() ==> hits[j].0 != k) ==> hits.len() == limit && (limit > 0
                ==> hits[limit - 1].1.ge(self.pair_score(k, q)))
    }

    /// Ranks the stored names by similarity to `query`: the best `n_first`
    /// of those that pass `min_score`, best first.
    pub fn rank(&self, query: &str, n_first: usize, min_score: Score) -> (r: Vec<(usize, Score)>)
        requires
            self.wf(),
            min_score.den > 0,
        ensures
            self.is_ranking(query@, n_first as int, min_score, r@),
    {
        let cmp = trigrams(query);
        proof {
            cmp@.unique_seq_to_set();
        }
        let ghost q = query@;
        let ghost total = self.trigrams.len();
        let mut buf: Vec<(usize, Score)> = Vec::new();
        let mut k: usize = 0;
        while k < self.trigrams.len()
            invariant
                self.wf(),
                q == query@,
                cmp@.no_duplicates(),
                cmp@.to_set() == signature(q),
                cmp@.len() == signature(q).len(),
                min_score.den > 0,
                k <= self.trigrams.len(),
                buf.len() == self.kept_count(q, min_score, k as int),
                forall|j: int|
                    #![trigger buf@[j]]
                    0 <= j < buf.len() ==> buf@[j].0 < k && self.kept(buf@[j].0 as int, q, min_score)
                        && buf@[j].1 == self.pair_score(buf@[j].0 as int, q) && buf@[j].1.den > 0,
                forall|a: int, b: int|
                    #![trigger buf@[a], buf@[b]]
                    0 <= a < buf.len() && 0 <= b < buf.len() && a != b ==> buf@[a].0 != buf@[b].0,
                forall|a: int, b: int|
                    #![trigger buf@[a], buf@[b]]
                    0 <= a < b < buf.len() ==> buf@[a].1.ge(buf@[b].1),
                forall|k2: int|
                    #![trigger self.kept(k2, q, min_score)]
                    0 <= k2 < k && self.kept(k2, q, min_score) ==> exists|j: int|
                        0 <= j < buf.len() && buf@[j].0 == k2,
            decreases self.trigrams.len() - k,
        {
            let sig = &self.trigrams[k].1;
            let mut keep = false;
            let mut score = Score { num: 0, den: 1 };
            if sig.len() as u64 <= u64::MAX - cmp.len() as u64 {
                score = trigram_similarity(sig, &cmp);
                keep = if min_score.num == 0 {
                    score.num > 0
                } else {
                    score.at_least(&min_score)
                };
            }
            assert(keep == self.kept(k as int, q, min_score));
            if keep {
                let mut p: usize = 0;
                while p < buf.len() && buf[p].1.at_least(&score)
                    invariant
                        p <= buf.len(),
                        forall|j: int| 0 <= j < p ==> buf@[j].1.ge(score),
                    decreases buf.len() - p,
                {
                    p += 1;
                }
                let ghost old_buf = buf@;
                buf.insert(p, (k, score));
                proof {
                    lemma_insert_sorted(old_buf, p as int, (k, score), buf@);
                    assert(buf@[p as int].0 == k);
                    assert forall|k2: int|
                        #![trigger self.kept(k2, q, min_score)]
                        0 <= k2 < k + 1 && self.kept(k2, q, min_score) implies exists|j: int|
                            0 <= j < buf.len() && buf@[j].0 == k2 by {
                        if k2 < k {
                            let j = choose|j: int| 0 <= j < old_buf.len() && old_buf[j].0 == k2;
                            if j < p {
                                assert(buf@[j] == old_buf[j]);
                            } else {
                                assert(buf@[j + 1] == old_buf[j]);
                            }
                        } else {
                            assert(buf@[p as int].0 == k2);
                        }
                    }
                }
            }
            k += 1;
        }
        let ghost full = buf@;
        buf.truncate(n_first);
        proof {
            assert forall|j: int| 0 <= j < buf@.len() implies #[trigger] buf@[j] == full[j] by {}
            assert forall|k2: int|
                #![trigger self.kept(k2, q, min_score)]
                0 <= k2 < self.pair_count() && self.kept(k2, q, min_score) && (forall|j: int|
                    0 <= j < buf@.len() ==> buf@[j].0 != k2) implies buf@.len() == n_first
                    && (n_first > 0 ==> buf@[n_first - 1].1.ge(self.pair_score(k2, q))) by {
                let j = choose|j: int| 0 <= j < full.len() && full[j].0 == k2;
                assert(j >= buf@.len()) by {
                    if j < buf@.len() {
                        assert(buf@[j] == full[j]);
                    }
                }
                if n_first > 0 {
                    assert(buf@[n_first - 1] == full[n_first - 1]);
                }
            }
        }
        buf
    }

    /// The `i`-th item kept.
    pub fn item(&self, i: usize) -> (r: &T)
        requires
            i < self.items().len(),
        ensures
            *r == self.items()[i as int],
    {
        &self.item_map[i]
    }

    /// The position of the item of the `k`-th stored name.
    pub fn item_of_pair(&self, k: usize) -> (r: usize)
        requires
            self.wf(),
            k < self.pair_count(),
        ensures
            r as int == self.pair_item(k as int),
            r < self.items().len(),
    {
        self.trigrams[k].0
    }

    /// The best `n_first` items for `query` among those whose names pass
    /// `min_score`, best first, each with its score; an item comes once for
    /// each of its names that ranks.
    pub fn search(&self, query: &str, n_first: usize, min_score: Score) -> (r: Vec<Match<T>>)
        where
            T: Clone,
        requires
            self.wf(),
            min_score.den > 0,
        ensures
            exists|hits: Seq<(usize, Score)>|
                {
                    &&& self.is_ranking(query@, n_first as int, min_score, hits)
                    &&& r@.len() == hits.len()
                    &&& forall|j: int|
                        #![trigger r@[j]]
                        0 <= j < r@.len() ==> r@[j].score == hits[j].1 && cloned(
                            self.items()[self.pair_item(hits[j].0 as int)],
                            r@[j].item,
                        )
                },
    {
        let hits = self.rank(query, n_first, min_score);
        let mut out: Vec<Match<T>> = Vec::new();
        let mut j: usize = 0;
        while j < hits.len()
            invariant
                self.wf(),
                self.is_ranking(query@, n_first as int, min_score, hits@),
                j <= hits.len(),
                out@.len() == j,
                forall|i: int|
                    #![trigger out@[i]]
                    0 <= i < j ==> out@[i].score == hits@[i].1 && cloned(
                        self.items()[self.pair_item(hits@[i].0 as int)],
                        out@[i].item,
                    ),
            decreases hits.len() - j,
        {
            let (k, score) = hits[j];
            assert(k < self.pair_count());
            let i: usize = self.item_of_pair(k);
            let item = self.item_map[i].clone();
            out.push(Match { item, score });
            j += 1;
        }
        out
    }
}

/// Inserting `x` at `p` into a best-first list of hits, where every hit
/// before `p` scores at least `x` and the one at `p` (if any) scores less,
/// keeps it best-first.
pub proof fn lemma_insert_sorted(old: Seq<(usize, Score)>, p: int, x: (usize, Score), new: Seq<(usize, Score)>)
    requires
        0 <= p <= old.len(),
        new == old.insert(p, x),
        x.1.den > 0,
        forall|j: int| #![trigger old[j]] 0 <= j < old.len() ==> old[j].1.den > 0,
        forall|a: int, b: int| #![trigger old[a], old[b]] 0 <= a < b < old.len() ==> old[a].1.ge(old[b].1),
        forall|j: int| 0 <= j < p ==> old[j].1.ge(x.1),
        p < old.len() ==> !old[p].1.ge(x.1),
    ensures
        forall|a: int, b: int| #![trigger new[a], new[b]] 0 <= a < b < new.len() ==> new[a].1.ge(new[b].1),
{
    assert forall|a: int, b: int| #![trigger new[a], new[b]] 0 <= a < b < new.len() implies new[a].1.ge(new[b].1) by {
        if b < p {
            assert(new[a] == old[a] && new[b] == old[b]);
        } else if b == p {
            assert(new[a] == old[a]);
        } else if a < p {
            assert(new[a] == old[a] && new[b] == old[b - 1]);
            lemma_ge_total(old[p].1, x.1);
            if b - 1 > p {
                lemma_ge_transitive(x.1, old[p].1, old[b - 1].1);
            }
            lemma_ge_transitive(old[a].1, x.1, old[b - 1].1);
        } else if a == p {
            assert(new[b] == old[b - 1]);
            lemma_ge_total(old[p].1, x.1);
            if b - 1 > p {
                lemma_ge_transitive(x.1, old[p].1, old[b - 1].1);
            }
        } else {
            assert(new[a] == old[a - 1] && new[b] == old[b - 1]);
        }
    }
}

/// Items and keys line up, keys are distinct, every signature belongs to an
/// item and holds each trigram once.
pub open spec fn table_wf<T: Named>(
    keys: Seq<String>,
    map: Seq<T>,
    list: Seq<(usize, Vec<Trigram>)>,
) -> bool {
    &&& map.len() == keys.len()
    &&& forall|i: int| 0 <= i < map.len() ==> #[trigger] keyed(keys, map, i)
    &&& forall|i: int, j: int|
        #![trigger keys[i], keys[j]]
        0 <= i < keys.len() && 0 <= j < keys.len() && i != j ==> keys[i]@ != keys[j]@
    &&& forall|k: int|
        #![trigger list[k]]
        0 <= k < list.len() ==> list[k].0 < map.len() && list[k].1@.no_duplicates()
}

/// The `i`-th item is named and kept under its key.
pub open spec fn keyed<T: Named>(keys: Seq<String>, map: Seq<T>, i: int) -> bool {
    map[i].name_seq().len() > 0 && keys[i]@ == primary(map[i])
}

/// The table built from `items`: every item keyed by its first name (the last
/// one wins on a shared key), and every name, in order, stored with its
/// signature and the position of its item.
pub open spec fn table_built<T: Named>(
    keys: Seq<String>,
    map: Seq<T>,
    list: Seq<(usize, Vec<Trigram>)>,
    items: Seq<T>,
) -> bool {
    &&& table_wf(keys, map, list)
    &&& list.len() == alias_list(items).len()
    &&& forall|k: int|
        0 <= k < list.len() ==> keys[list[k].0 as int]@ == (#[trigger] alias_list(items)[k]).0
            && list[k].1@.to_set() == signature(alias_list(items)[k].1)
    &&& forall|i: int| 0 <= i < map.len() ==> last_with_key(items, #[trigger] keys[i]@, map[i])
    &&& forall|j: int|
        #![trigger items[j]]
        0 <= j < items.len() ==> exists|i: int|
            #![trigger keys[i]]
            0 <= i < keys.len() && keys[i]@ == primary(items[j])
}

proof fn lemma_build_step<T: Named>(
    keys0: Seq<String>,
    map0: Seq<T>,
    list0: Seq<(usize, Vec<Trigram>)>,
    pre: Seq<T>,
    item: T,
    keys: Seq<String>,
    map: Seq<T>,
    list: Seq<(usize, Vec<Trigram>)>,
    pos: int,
    fresh: bool,
)
    requires
        table_built(keys0, map0, list0, pre),
        item.name_seq().len() > 0,
        fresh ==> pos == keys0.len() && keys.len() == keys0.len() + 1 && keys[pos]@ == primary(item)
            && (forall|i: int| 0 <= i < keys0.len() ==> keys[i] == keys0[i] && keys0[i]@ != primary(item))
            && map == map0.push(item),
        !fresh ==> 0 <= pos < keys0.len() && keys == keys0 && keys0[pos]@ == primary(item) && map
            == map0.update(pos, item),
        list.len() == list0.len() + item.name_seq().len(),
        forall|k: int| 0 <= k < list0.len() ==> #[trigger] list[k] == list0[k],
        forall|m: int|
            0 <= m < item.name_seq().len() ==> (#[trigger] list[list0.len() + m]).0 == pos
                && list[list0.len() + m].1@.no_duplicates()
                && list[list0.len() + m].1@.to_set() == signature(tagged_names(item)[m].1),
    ensures
        table_built(keys, map, list, pre.push(item)),
{
    let post = pre.push(item);
    let tn = tagged_names(item);
    assert(table_wf(keys0, map0, list0));
    assert(map0.len() == keys0.len());
    assert(post.drop_last() == pre);
    assert(alias_list(post) == alias_list(pre) + tn);
    assert forall|i: int| 0 <= i < keys0.len() implies #[trigger] keys[i] == keys0[i] by {}
    assert forall|i: int| 0 <= i < map.len() && i != pos implies #[trigger] map[i] == map0[i] by {}
    assert(map[pos] == item);
    assert forall|i: int| 0 <= i < map.len() implies #[trigger] keyed(keys, map, i) by {
        if i != pos {
            assert(keys[i] == keys0[i]);
            assert(map[i] == map0[i]);
            assert(keyed(keys0, map0, i));
        }
    }
    assert forall|i: int, j: int| #![trigger keys[i], keys[j]] 0 <= i < keys.len() && 0 <= j < keys.len() && i != j
        implies keys[i]@ != keys[j]@ by {
        if i != pos && j != pos {
            assert(keys[i] == keys0[i] && keys[j] == keys0[j]);
        } else if i == pos {
            assert(keys[j] == keys0[j]);
        } else {
            assert(keys[i] == keys0[i]);
        }
    }
    assert forall|k: int| #![trigger list[k]] 0 <= k < list.len() implies list[k].0 < map.len()
        && list[k].1@.no_duplicates() by {
        if k >= list0.len() {
            let m: int = k - list0.len();
            assert(0 <= m < item.name_seq().len());
            assert(list[list0.len() + m].0 == pos && list[list0.len() + m].1@.no_duplicates());
            assert(list0.len() + m == k);
        } else {
            assert(list[k] == list0[k]);
            assert(list0[k].0 < map0.len() && list0[k].1@.no_duplicates());
        }
    }
    assert(table_wf(keys, map, list));
    assert forall|k: int| 0 <= k < list.len() implies keys[list[k].0 as int]@ == (
        #[trigger] alias_list(post)[k]).0 && list[k].1@.to_set() == signature(alias_list(post)[k].1) by {
        if k < list0.len() {
            assert(list[k] == list0[k]);
            assert(alias_list(post)[k] == alias_list(pre)[k]);
            assert(keys0[list0[k].0 as int]@ == alias_list(pre)[k].0);
            assert(keys[list0[k].0 as int] == keys0[list0[k].0 as int]);
        } else {
            let m: int = k - list0.len();
            assert(alias_list(post)[k] == tn[m]);
            assert(list[list0.len() + m].0 == pos);
        }
    }
    assert forall|i: int| 0 <= i < map.len() implies last_with_key(post, #[trigger] keys[i]@, map[i]) by {
        if i == pos {
            assert(post[pre.len() as int] == item);
        } else {
            assert(keys[i] == keys0[i]);
            assert(map[i] == map0[i]);
            assert(last_with_key(pre, keys0[i]@, map0[i]));
            let j = choose|j: int|
                0 <= j < pre.len() && pre[j] == map0[i] && primary(map0[i]) == keys0[i]@ && forall|j2: int|
                    j < j2 < pre.len() ==> primary(pre[j2]) != keys0[i]@;
            assert(post[j] == pre[j]);
            assert forall|j2: int| j < j2 < post.len() implies primary(post[j2]) != keys[i]@ by {
                if j2 < pre.len() {
                    assert(post[j2] == pre[j2]);
                } else {
                    assert(post[j2] == item);
                    assert(keys[pos]@ == primary(item));
                }
            }
        }
    }
    assert forall|j: int| #![trigger post[j]] 0 <= j < post.len() implies exists|i: int|
        #![trigger keys[i]]
        0 <= i < keys.len() && keys[i]@ == primary(post[j]) by {
        if j < pre.len() {
            assert(post[j] == pre[j]);
            let i = choose|i: int| #![trigger keys0[i]] 0 <= i < keys0.len() && keys0[i]@ == primary(pre[j]);
            assert(keys[i] == keys0[i]);
        } else {
            assert(post[j] == item);
            assert(keys[pos]@ == primary(post[j]));
        }
    }
}

/// The position of `key` among `keys`, if it is there.
fn find_key(keys: &Vec<String>, key: &String) -> (r: Option<usize>)
    ensures
        r matches Some(p) ==> p < keys.len() && keys[p as int]@ == key@,
        r is None ==> forall|i: int| 0 <= i < keys.len() ==> keys[i]@ != key@,
{
    let mut i: usize = 0;
    while i < keys.len()
        invariant
            i <= keys.len(),
            forall|j: int| 0 <= j < i ==> keys[j]@ != key@,
        decreases keys.len() - i,
    {
        if keys[i] == *key {
            return Some(i);
        }
        i += 1;
    }
    None
}

/// Jaccard similarity is symmetric, lies in `[0, 1]`, is one for a non-empty
/// set against itself and zero for disjoint sets.
pub proof fn lemma_similarity_laws(a: Set<Trigram>, b: Set<Trigram>)
    requires
        a.finite(),
        b.finite(),
        (a + b).len() <= u64::MAX,
    ensures
        similarity(a, b) == similarity(b, a),
        similarity(a, b).wf(),
        a.len() > 0 ==> similarity(a, a).is_one(),
        a.disjoint(b) ==> similarity(a, b).num == 0,
{
    broadcast use vstd::set_lib::lemma_set_intersect_union_lens;
    assert(a + b =~= b + a);
    assert(a.intersect(b) =~= b.intersect(a));
    assert(a + a =~= a);
    assert(a.intersect(a) =~= a);
    vstd::set_lib::lemma_len_subset(a.intersect(b), a);
    vstd::set_lib::lemma_len_subset(a, a + b);
    if a.disjoint(b) {
        assert(a.intersect(b) =~= Set::empty());
    }
}

/// A trigram signature is never empty: the padding alone gives a window.
pub proof fn lemma_signature_nonempty(s: Seq<char>)
    ensures
        signature(s).len() > 0,
        signature(s).finite(),
{
    broadcast use vstd::seq_lib::seq_to_set_is_finite;
    let w = windows(padded(lower_of(s)));
    assert(w.len() >= 2);
    assert(signature(s).contains(w[0]));
    if signature(s).len() == 0 {
        vstd::set_lib::lemma_set_empty_equivalency_len(signature(s));
    }
}

/// A string scores exactly one against itself.
pub proof fn lemma_self_similarity(s: Seq<char>)
    requires
        signature(s).len() <= u64::MAX,
    ensures
        similarity(signature(s), signature(s)).is_one(),
{
    lemma_signature_nonempty(s);
    let a = signature(s);
    assert(a + a =~= a);
    lemma_similarity_laws(a, a);
}

/// A score at least one that is at most one is exactly one.
proof fn lemma_at_least_one(x: Score, one: Score)
    requires
        x.wf(),
        one.is_one(),
        x.ge(one),
    ensures
        x.is_one(),
{
    assert(x.num >= x.den) by (nonlinear_arith)
        requires
            x.num as int * one.den as int >= one.num as int * x.den as int,
            one.num == one.den,
            one.den > 0,
    ;
}

impl<T: Named> Trigrams<T> {
    proof fn lemma_kept_count_positive(&self, q: Seq<char>, min: Score, k: int, n: int)
        requires
            0 <= k < n,
            self.kept(k, q, min),
        ensures
            self.kept_count(q, min, n) >= 1,
        decreases n,
    {
        if k < n - 1 {
            self.lemma_kept_count_positive(q, min, k, n - 1);
        }
    }

    proof fn lemma_kept_count_monotone(&self, q: Seq<char>, zero: Score, min: Score, n: int)
        requires
            self.wf(),
            n <= self.pair_count(),
            zero.num == 0,
            min.num > 0,
        ensures
            self.kept_count(q, zero, n) >= self.kept_count(q, min, n),
        decreases n,
    {
        if n > 0 {
            self.lemma_kept_count_monotone(q, zero, min, n - 1);
            if self.kept(n - 1, q, min) {
                let s = self.pair_score(n - 1, q);
                self.lemma_pair_score_wf(n - 1, q);
                assert(s.num > 0) by (nonlinear_arith)
                    requires
                        s.num as int * min.den as int >= min.num as int * s.den as int,
                        min.num > 0,
                        s.den > 0,
                        min.den >= 0,
                ;
            }
        }
    }

    /// Every score that a stored name gets is in `[0, 1]`.
    proof fn lemma_pair_score_wf(&self, k: int, q: Seq<char>)
        requires
            self.wf(),
            0 <= k < self.pair_count(),
            self.scorable(k, q),
        ensures
            self.pair_score(k, q).wf(),
    {
        broadcast use vstd::seq_lib::seq_to_set_is_finite;
        broadcast use vstd::set_lib::lemma_set_intersect_union_lens;
        let a = self.pair_signature(k);
        let b = signature(q);
        lemma_signature_nonempty(q);
        self.trigrams@[k].1@.unique_seq_to_set();
        assert(a.finite() && b.finite());
        assert((a + b).len() + a.intersect(b).len() == a.len() + b.len());
        lemma_similarity_laws(a, b);
    }

    /// Searching for one of the stored names ranks a hit with score exactly
    /// one first.
    pub proof fn lemma_exact_name_ranks_first(
        &self,
        items: Seq<T>,
        k: int,
        limit: int,
        min: Score,
        hits: Seq<(usize, Score)>,
    )
        requires
            self.built_from(items),
            0 <= k < alias_list(items).len(),
            self.scorable(k, alias_list(items)[k].1),
            limit >= 1,
            min.wf(),
            self.is_ranking(alias_list(items)[k].1, limit, min, hits),
        ensures
            hits.len() >= 1,
            hits[0].1.is_one(),
    {
        let q = alias_list(items)[k].1;
        assert(self.pair_signature(k) == signature(q));
        lemma_signature_nonempty(q);
        self.trigrams@[k].1@.unique_seq_to_set();
        lemma_self_similarity(q);
        let one = self.pair_score(k, q);
        assert(one.is_one());
        assert(passes(one, min)) by {
            if min.num != 0 {
                assert(one.ge(min)) by (nonlinear_arith)
                    requires
                        one.num == one.den,
                        min.num <= min.den,
                        one.den > 0,
                ;
            }
        }
        assert(self.kept(k, q, min));
        self.lemma_kept_count_positive(q, min, k, self.pair_count() as int);
        assert(hits.len() >= 1);
        self.lemma_pair_score_wf(hits[0].0 as int, q);
        if exists|j: int| 0 <= j < hits.len() && hits[j].0 == k {
            let j = choose|j: int| 0 <= j < hits.len() && hits[j].0 == k;
            if j > 0 {
                assert(hits[0].1.ge(hits[j].1));
            }
            lemma_at_least_one(hits[0].1, one);
        } else {
            assert(hits[limit - 1].1.ge(one));
            if limit - 1 > 0 {
                assert(hits[0].1.ge(hits[limit - 1].1));
                self.lemma_pair_score_wf(hits[limit - 1].0 as int, q);
                lemma_ge_transitive(hits[0].1, hits[limit - 1].1, one);
            }
            lemma_at_least_one(hits[0].1, one);
        }
    }

    /// An index built from items is well formed.
    pub proof fn lemma_built_wf(&self, items: Seq<T>)
        requires
            self.built_from(items),
        ensures
            self.wf(),
    {
    }

    /// What a ranking says of its length and of each hit.
    pub proof fn lemma_ranking_facts(&self, q: Seq<char>, limit: int, min: Score, hits: Seq<(usize, Score)>)
        requires
            self.wf(),
            self.is_ranking(q, limit, min, hits),
        ensures
            hits.len() == if limit < self.kept_count(q, min, self.pair_count() as int) {
                limit
            } else {
                self.kept_count(q, min, self.pair_count() as int) as int
            },
            forall|j: int|
                #![trigger hits[j]]
                0 <= j < hits.len() ==> hits[j].1.den > 0 && hits[j].0 < self.pair_count()
                    && self.kept(hits[j].0 as int, q, min)
                    && hits[j].1 == self.pair_score(hits[j].0 as int, q),
            forall|a: int, b: int|
                #![trigger hits[a], hits[b]]
                0 <= a < b < hits.len() ==> hits[a].1.ge(hits[b].1),
    {
        assert forall|j: int|
            #![trigger hits[j]]
            0 <= j < hits.len() implies hits[j].1.den > 0 by {
            self.lemma_pair_score_wf(hits[j].0 as int, q);
        }
    }

    /// A zero threshold keeps at least as many hits as any positive one.
    pub proof fn lemma_zero_threshold_keeps_more(
        &self,
        q: Seq<char>,
        limit: int,
        zero: Score,
        min: Score,
        h0: Seq<(usize, Score)>,
        h1: Seq<(usize, Score)>,
    )
        requires
            self.wf(),
            zero.num == 0,
            min.num > 0,
            self.is_ranking(q, limit, zero, h0),
            self.is_ranking(q, limit, min, h1),
        ensures
            h0.len() >= h1.len(),
    {
        self.lemma_kept_count_monotone(q, zero, min, self.pair_count() as int);
    }
}

} // verus!
