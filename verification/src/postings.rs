//! Postings lists: ascending, duplicate-free sequences of document ids,
//! their intersection, and the store that maps each token to its list.

use vstd::prelude::*;
use vstd::hash_map::StringHashMap;

verus! {

/// Strictly ascending: every id is smaller than the ids after it. Such a
/// list holds no id twice.
pub open spec fn is_ascending(list: Seq<usize>) -> bool {
    forall|i: int, j: int| 0 <= i < j < list.len() ==> list[i] < list[j]
}

/// The ids of `a` that also occur in `b`, in the order of `a`.
pub open spec fn common(a: Seq<usize>, b: Seq<usize>) -> Seq<usize> {
    a.filter(|id: usize| b.contains(id))
}

/// `list` with `id` put in before the first larger id, or `list` itself
/// where the scan meets `id` first.
pub open spec fn with_id(list: Seq<usize>, id: usize) -> Seq<usize>
    decreases list.len(),
{
    if list.len() == 0 {
        seq![id]
    } else if list[0] == id {
        list
    } else if list[0] > id {
        seq![id] + list
    } else {
        seq![list[0]] + with_id(list.drop_first(), id)
    }
}

/// An ascending list holds no id twice.
pub proof fn lemma_ascending_no_duplicates(list: Seq<usize>)
    requires
        is_ascending(list),
    ensures
        list.no_duplicates(),
{
    assert forall|i: int, j: int| 0 <= i < list.len() && 0 <= j < list.len() && i != j implies list[i]
        != list[j] by {
        if i < j {
            assert(list[i] < list[j]);
        } else {
            assert(list[j] < list[i]);
        }
    }
}

/// An id is in `common(a, b)` exactly when it is in both lists.
pub proof fn lemma_common_contains(a: Seq<usize>, b: Seq<usize>, id: usize)
    ensures
        common(a, b).contains(id) <==> a.contains(id) && b.contains(id),
{
    let pred = |id: usize| b.contains(id);
    if common(a, b).contains(id) {
        a.lemma_filter_contains_rev(pred, id);
        let k = choose|k: int| 0 <= k < a.filter(pred).len() && a.filter(pred)[k] == id;
        a.lemma_filter_pred(pred, k);
    }
    if a.contains(id) && b.contains(id) {
        let k = choose|k: int| 0 <= k < a.len() && a[k] == id;
        a.lemma_filter_contains(pred, k);
    }
}

/// What is kept of an ascending list is ascending.
pub proof fn lemma_common_ascending(a: Seq<usize>, b: Seq<usize>)
    requires
        is_ascending(a),
    ensures
        is_ascending(common(a, b)),
    decreases a.len(),
{
    reveal(Seq::filter);
    if a.len() > 0 {
        let front = a.drop_last();
        lemma_common_ascending(front, b);
        let kept = common(front, b);
        if b.contains(a.last()) {
            assert forall|i: int| 0 <= i < kept.len() implies kept[i] < a.last() by {
                assert(kept.contains(kept[i]));
                lemma_common_contains(front, b, kept[i]);
                let k = choose|k: int| 0 <= k < front.len() && front[k] == kept[i];
                assert(a[k] == kept[i]);
            }
        }
    }
}

/// Two ascending lists that hold the same ids are the same list.
pub proof fn lemma_ascending_unique(a: Seq<usize>, b: Seq<usize>)
    requires
        is_ascending(a),
        is_ascending(b),
        forall|id: usize| a.contains(id) <==> b.contains(id),
    ensures
        a == b,
    decreases a.len(),
{
    if a.len() == 0 {
        if b.len() > 0 {
            assert(b.contains(b[0]));
        }
        assert(a =~= b);
    } else {
        assert(a.contains(a.last()));
        assert(b.contains(a.last()));
        assert(b.len() > 0);
        assert(b.contains(b.last()));
        assert(a.contains(b.last()));
        // The largest id of each list is in the other, so the two agree.
        let ia = choose|i: int| 0 <= i < a.len() && a[i] == b.last();
        let ib = choose|i: int| 0 <= i < b.len() && b[i] == a.last();
        assert(a.last() == b.last()) by {
            if ia < a.len() - 1 {
                assert(a[ia] < a[a.len() - 1]);
            }
            if ib < b.len() - 1 {
                assert(b[ib] < b[b.len() - 1]);
            }
        }
        let fa = a.drop_last();
        let fb = b.drop_last();
        assert forall|id: usize| fa.contains(id) <==> fb.contains(id) by {
            if fa.contains(id) {
                let i = choose|i: int| 0 <= i < fa.len() && fa[i] == id;
                assert(a[i] == id);
                assert(a[i] < a[a.len() - 1]);
                assert(a.contains(id));
                let j = choose|j: int| 0 <= j < b.len() && b[j] == id;
                assert(j < b.len() - 1);
                assert(fb[j] == id);
            }
            if fb.contains(id) {
                let j = choose|j: int| 0 <= j < fb.len() && fb[j] == id;
                assert(b[j] == id);
                assert(b[j] < b[b.len() - 1]);
                assert(b.contains(id));
                let i = choose|i: int| 0 <= i < a.len() && a[i] == id;
                assert(i < a.len() - 1);
                assert(fa[i] == id);
            }
        }
        lemma_ascending_unique(fa, fb);
        assert(a =~= fa.push(a.last()));
        assert(b =~= fb.push(b.last()));
    }
}

/// Where every id before position `k` is smaller than `id` and none from
/// `k` on is, `with_id` puts `id` at `k`, unless it stands there already.
pub proof fn lemma_with_id_at(list: Seq<usize>, id: usize, k: int)
    requires
        0 <= k <= list.len(),
        forall|i: int| 0 <= i < k ==> list[i] < id,
        k < list.len() ==> list[k] >= id,
    ensures
        with_id(list, id) == if k < list.len() && list[k] == id {
            list
        } else {
            list.insert(k, id)
        },
    decreases k,
{
    if k == 0 {
        if list.len() == 0 {
            assert(seq![id] =~= list.insert(0, id));
        } else if list[0] > id {
            assert(seq![id] + list =~= list.insert(0, id));
        }
    } else {
        let tail = list.drop_first();
        assert forall|i: int| 0 <= i < k - 1 implies tail[i] < id by {
            assert(tail[i] == list[i + 1]);
        }
        lemma_with_id_at(tail, id, k - 1);
        if k < list.len() && list[k] == id {
            assert(seq![list[0]] + tail =~= list);
        } else {
            assert(seq![list[0]] + tail.insert(k - 1, id) =~= list.insert(k, id));
        }
    }
}

/// Adding an id keeps an ascending list ascending, and changes what the
/// list holds by that id alone.
pub proof fn lemma_with_id(list: Seq<usize>, id: usize)
    requires
        is_ascending(list),
    ensures
        is_ascending(with_id(list, id)),
        with_id(list, id).len() > 0,
        forall|x: usize| with_id(list, id).contains(x) <==> list.contains(x) || x == id,
        list.contains(id) ==> with_id(list, id) == list,
    decreases list.len(),
{
    let out = with_id(list, id);
    if list.len() == 0 {
        assert forall|x: usize| out.contains(x) <==> list.contains(x) || x == id by {
            if x == id {
                assert(out[0] == x);
            }
        }
    } else if list[0] == id {
        assert(list.contains(id));
    } else if list[0] > id {
        assert forall|x: usize| out.contains(x) <==> list.contains(x) || x == id by {
            if out.contains(x) {
                let i = choose|i: int| 0 <= i < out.len() && out[i] == x;
                if i > 0 {
                    assert(list[i - 1] == x);
                }
            }
            if list.contains(x) {
                let i = choose|i: int| 0 <= i < list.len() && list[i] == x;
                assert(out[i + 1] == x);
            }
            if x == id {
                assert(out[0] == x);
            }
        }
        assert forall|i: int, j: int| 0 <= i < j < out.len() implies out[i] < out[j] by {
            if i == 0 {
                assert(out[j] == list[j - 1]);
                if j - 1 > 0 {
                    assert(list[0] < list[j - 1]);
                }
            } else {
                assert(list[i - 1] < list[j - 1]);
            }
        }
        if list.contains(id) {
            let i = choose|i: int| 0 <= i < list.len() && list[i] == id;
            if i > 0 {
                assert(list[0] < list[i]);
            }
        }
    } else {
        let tail = list.drop_first();
        assert(is_ascending(tail)) by {
            assert forall|i: int, j: int| 0 <= i < j < tail.len() implies tail[i] < tail[j] by {
                assert(list[i + 1] < list[j + 1]);
            }
        }
        lemma_with_id(tail, id);
        let rest = with_id(tail, id);
        assert forall|x: usize| out.contains(x) <==> list.contains(x) || x == id by {
            if out.contains(x) {
                let i = choose|i: int| 0 <= i < out.len() && out[i] == x;
                if i > 0 {
                    assert(rest[i - 1] == x);
                    assert(rest.contains(x));
                    if tail.contains(x) {
                        let t = choose|t: int| 0 <= t < tail.len() && tail[t] == x;
                        assert(list[t + 1] == x);
                    }
                } else {
                    assert(list[0] == x);
                }
            }
            if list.contains(x) {
                let i = choose|i: int| 0 <= i < list.len() && list[i] == x;
                if i == 0 {
                    assert(out[0] == x);
                } else {
                    assert(tail[i - 1] == x);
                    assert(tail.contains(x));
                    assert(rest.contains(x));
                    let r = choose|r: int| 0 <= r < rest.len() && rest[r] == x;
                    assert(out[r + 1] == x);
                }
            }
            if x == id {
                assert(rest.contains(x));
                let r = choose|r: int| 0 <= r < rest.len() && rest[r] == x;
                assert(out[r + 1] == x);
            }
        }
        assert forall|i: int, j: int| 0 <= i < j < out.len() implies out[i] < out[j] by {
            if i == 0 {
                assert(out[j] == rest[j - 1]);
                assert(rest.contains(rest[j - 1]));
                if tail.contains(rest[j - 1]) {
                    let t = choose|t: int| 0 <= t < tail.len() && tail[t] == rest[j - 1];
                    assert(list[0] < list[t + 1]);
                }
            } else {
                assert(rest[i - 1] < rest[j - 1]);
            }
        }
        if list.contains(id) {
            let i = choose|i: int| 0 <= i < list.len() && list[i] == id;
            assert(tail[i - 1] == id);
            assert(tail.contains(id));
            assert(seq![list[0]] + tail =~= list);
        }
    }
}

/// The ids that two ascending lists share, ascending: a merge that walks
/// both lists once, keeps an id where the two heads agree and otherwise
/// steps past the smaller head, until one list ends.
pub fn intersection(a: &Vec<usize>, b: &Vec<usize>) -> (out: Vec<usize>)
    requires
        is_ascending(a@),
        is_ascending(b@),
    ensures
        out@ == common(a@, b@),
        is_ascending(out@),
        out@.no_duplicates(),
        forall|id: usize| out@.contains(id) <==> a@.contains(id) && b@.contains(id),
{
    let mut out: Vec<usize> = Vec::new();
    let mut i: usize = 0;
    let mut j: usize = 0;
    let ghost in_b = |id: usize| b@.contains(id);
    assert(a@.take(0) =~= Seq::<usize>::empty());
    while i < a.len() && j < b.len()
        invariant
            i <= a.len(),
            j <= b.len(),
            is_ascending(a@),
            is_ascending(b@),
            in_b == (|id: usize| b@.contains(id)),
            out@ == a@.take(i as int).filter(in_b),
            forall|k: int| 0 <= k < j && i < a.len() ==> b[k] < a[i as int],
            forall|k: int| 0 <= k < i && j < b.len() ==> a[k] < b[j as int],
        decreases a.len() - i + b.len() - j,
    {
        let x: usize = a[i];
        let y: usize = b[j];
        proof {
            assert(a@.take(i + 1) =~= a@.take(i as int).push(x));
            a@.take(i as int).lemma_filter_push(x, in_b);
        }
        if x == y {
            assert(b@.contains(x));
            out.push(x);
            i += 1;
            j += 1;
        } else if x < y {
            assert(!b@.contains(x)) by {
                if b@.contains(x) {
                    let k = choose|k: int| 0 <= k < b@.len() && b@[k] == x;
                    if k > j {
                        assert(b[j as int] < b[k]);
                    }
                }
            }
            i += 1;
        } else {
            j += 1;
        }
    }
    proof {
        let seen = a@.take(i as int);
        let unseen = a@.skip(i as int);
        assert(a@ =~= seen + unseen);
        Seq::filter_distributes_over_add(seen, unseen, in_b);
        let extra = unseen.filter(in_b);
        if extra.len() > 0 {
            assert(extra.contains(extra[0]));
            unseen.lemma_filter_contains_rev(in_b, extra[0]);
            unseen.lemma_filter_pred(in_b, 0);
            let u = choose|u: int| 0 <= u < unseen.len() && unseen[u] == extra[0];
            let k = choose|k: int| 0 <= k < b@.len() && b@[k] == extra[0];
            assert(a@[i + u] == extra[0]);
            if u > 0 {
                assert(a@[i as int] < a@[i + u]);
            }
        }
        assert(extra =~= Seq::<usize>::empty());
        assert(seen.filter(in_b) + extra =~= seen.filter(in_b));
        lemma_common_ascending(a@, b@);
        lemma_ascending_no_duplicates(out@);
        assert forall|id: usize| out@.contains(id) <==> a@.contains(id) && b@.contains(id) by {
            lemma_common_contains(a@, b@, id);
        }
    }
    out
}

/// Puts `id` into an ascending list at the place that keeps the list
/// ascending, and leaves the list as it is where it holds `id` already.
pub fn insert_sorted(list: &mut Vec<usize>, id: usize)
    requires
        is_ascending(old(list)@),
    ensures
        final(list)@ == with_id(old(list)@, id),
        is_ascending(final(list)@),
        forall|x: usize| final(list)@.contains(x) <==> old(list)@.contains(x) || x == id,
{
    let mut lo: usize = 0;
    let mut hi: usize = list.len();
    proof {
        lemma_with_id(list@, id);
    }
    while lo < hi
        invariant
            lo <= hi <= list.len(),
            *list == *old(list),
            is_ascending(list@),
            forall|k: int| 0 <= k < lo ==> list[k] < id,
            forall|k: int| hi <= k < list.len() ==> list[k] > id,
        decreases hi - lo,
    {
        let mid: usize = lo + (hi - lo) / 2;
        let at: usize = list[mid];
        if at == id {
            proof {
                assert(list@.contains(id));
                lemma_with_id(list@, id);
            }
            return ;
        } else if at < id {
            assert forall|k: int| 0 <= k < mid + 1 implies list[k] < id by {
                if k < mid {
                    assert(list[k] < list[mid as int]);
                }
            }
            lo = mid + 1;
        } else {
            assert forall|k: int| mid <= k < list.len() implies list[k] > id by {
                if k > mid {
                    assert(list[mid as int] < list[k]);
                }
            }
            hi = mid;
        }
    }
    proof {
        lemma_with_id_at(list@, id, lo as int);
    }
    list.insert(lo, id);
}

/// The list a token has in a store, empty where the token was never seen.
pub open spec fn postings_of(store: Map<Seq<char>, Seq<usize>>, token: Seq<char>) -> Seq<usize> {
    if store.contains_key(token) {
        store[token]
    } else {
        Seq::empty()
    }
}

/// Every list of the store is non-empty and ascending.
pub open spec fn well_formed(store: Map<Seq<char>, Seq<usize>>) -> bool {
    forall|token: Seq<char>| #[trigger]
        store.contains_key(token) ==> store[token].len() > 0 && is_ascending(store[token])
}

/// The store after document `id` was recorded under `token`.
pub open spec fn with_posting(store: Map<Seq<char>, Seq<usize>>, token: Seq<char>, id: usize) -> Map<
    Seq<char>,
    Seq<usize>,
> {
    store.insert(token, with_id(postings_of(store, token), id))
}

/// The store after document `id` was recorded under each of `tokens`, in
/// their order. A token that occurs twice is recorded once.
pub open spec fn with_postings(
    store: Map<Seq<char>, Seq<usize>>,
    tokens: Seq<Seq<char>>,
    id: usize,
) -> Map<Seq<char>, Seq<usize>>
    decreases tokens.len(),
{
    if tokens.len() == 0 {
        store
    } else {
        with_posting(with_postings(store, tokens.drop_last(), id), tokens.last(), id)
    }
}

/// Recording a posting keeps the store well formed and adds `id` to the
/// list of `token`, and nothing else anywhere.
pub proof fn lemma_with_posting(store: Map<Seq<char>, Seq<usize>>, token: Seq<char>, id: usize)
    requires
        well_formed(store),
    ensures
        well_formed(with_posting(store, token, id)),
        forall|t: Seq<char>, x: usize|
            #![trigger postings_of(with_posting(store, token, id), t).contains(x)]
            postings_of(with_posting(store, token, id), t).contains(x) <==> postings_of(
                store,
                t,
            ).contains(x) || (t == token && x == id),
        postings_of(store, token).contains(id) ==> with_posting(store, token, id) == store,
{
    let list = postings_of(store, token);
    assert(is_ascending(list));
    lemma_with_id(list, id);
    let after = with_posting(store, token, id);
    assert forall|t: Seq<char>, x: usize|
        #![trigger postings_of(after, t).contains(x)]
        postings_of(after, t).contains(x) <==> postings_of(store, t).contains(x) || (t == token
            && x == id) by {
        if t != token {
            assert(postings_of(after, t) == postings_of(store, t));
        }
    }
    if list.contains(id) {
        assert(store.contains_key(token));
        assert(after =~= store);
    }
}

/// Recording a document under its tokens keeps the store well formed and
/// adds `id` to the list of each of the tokens, and nothing else.
pub proof fn lemma_with_postings(store: Map<Seq<char>, Seq<usize>>, tokens: Seq<Seq<char>>, id: usize)
    requires
        well_formed(store),
    ensures
        well_formed(with_postings(store, tokens, id)),
        forall|t: Seq<char>, x: usize|
            #![trigger postings_of(with_postings(store, tokens, id), t).contains(x)]
            postings_of(with_postings(store, tokens, id), t).contains(x) <==> postings_of(
                store,
                t,
            ).contains(x) || (tokens.contains(t) && x == id),
    decreases tokens.len(),
{
    let after = with_postings(store, tokens, id);
    if tokens.len() > 0 {
        let front = tokens.drop_last();
        let mid = with_postings(store, front, id);
        lemma_with_postings(store, front, id);
        lemma_with_posting(mid, tokens.last(), id);
        assert forall|t: Seq<char>, x: usize|
            #![trigger postings_of(after, t).contains(x)]
            postings_of(after, t).contains(x) <==> postings_of(store, t).contains(x) || (
            tokens.contains(t) && x == id) by {
            assert(postings_of(after, t).contains(x) <==> postings_of(mid, t).contains(x) || (t
                == tokens.last() && x == id));
            assert(postings_of(mid, t).contains(x) <==> postings_of(store, t).contains(x) || (
            front.contains(t) && x == id));
            assert(tokens.contains(t) <==> front.contains(t) || t == tokens.last()) by {
                assert(tokens =~= front.push(tokens.last()));
                vstd::seq_lib::lemma_seq_contains_after_push(front, tokens.last(), t);
            }
        }
    } else {
        assert forall|t: Seq<char>, x: usize|
            #![trigger postings_of(after, t).contains(x)]
            postings_of(after, t).contains(x) <==> postings_of(store, t).contains(x) || (
            tokens.contains(t) && x == id) by {
            if tokens.contains(t) {
                let k = choose|k: int| 0 <= k < tokens.len() && tokens[k] == t;
            }
        }
    }
}

/// The mapping from each token to its postings list. It starts empty and
/// only grows; every list in it is ascending and holds no id twice,
/// whatever the order in which documents arrive.
pub struct PostingsStore {
    lists: StringHashMap<Vec<usize>>,
}

impl View for PostingsStore {
    type V = Map<Seq<char>, Seq<usize>>;

    closed spec fn view(&self) -> Map<Seq<char>, Seq<usize>> {
        Map::new(|t: Seq<char>| self.lists@.contains_key(t), |t: Seq<char>| self.lists@[t]@)
    }
}

impl PostingsStore {
    /// What holds of every store: its lists are non-empty and ascending.
    #[verifier::type_invariant]
    pub open spec fn valid(&self) -> bool {
        well_formed(self@)
    }

    /// A store without tokens.
    pub fn new() -> (store: Self)
        ensures
            store@ == Map::<Seq<char>, Seq<usize>>::empty(),
    {
        let store = PostingsStore { lists: StringHashMap::new() };
        assert(store@ =~= Map::<Seq<char>, Seq<usize>>::empty());
        store
    }

    /// The list stored for `token`, or `None` where the token was never
    /// seen. A stored list is never empty.
    pub fn lookup(&self, token: &str) -> (found: Option<&Vec<usize>>)
        ensures
            match found {
                Some(list) => self@.contains_key(token@) && list@ == self@[token@] && list@.len()
                    > 0 && is_ascending(list@),
                None => !self@.contains_key(token@),
            },
            well_formed(self@),
    {
        proof {
            use_type_invariant(self);
        }
        self.lists.get(token)
    }

    /// Records document `id` under `token`: a new token gets the list
    /// `[id]`; a known one gets `id` at its place in ascending order, unless
    /// the list holds it already.
    pub fn add(&mut self, token: &str, id: usize)
        ensures
            final(self)@ == with_posting(old(self)@, token@, id),
            well_formed(final(self)@),
    {
        proof {
            use_type_invariant(&*self);
            lemma_with_posting(self@, token@, id);
        }
        let mut list = match self.lists.get(token) {
            Some(found) => found.clone(),
            None => Vec::new(),
        };
        assert(list@ =~= postings_of(self@, token@));
        insert_sorted(&mut list, id);
        // The map is taken out for the update: the store is never seen
        // with a list half written.
        let mut lists = StringHashMap::new();
        std::mem::swap(&mut lists, &mut self.lists);
        lists.insert(token.to_owned(), list);
        assert(Map::new(|t: Seq<char>| lists@.contains_key(t), |t: Seq<char>| lists@[t]@)
            =~= with_posting(old(self)@, token@, id));
        self.lists = lists;
        assert(self@ =~= with_posting(old(self)@, token@, id));
    }

    /// Records document `id` under every one of `tokens`.
    pub fn add_all(&mut self, tokens: &Vec<String>, id: usize)
        ensures
            final(self)@ == with_postings(old(self)@, tokens.deep_view(), id),
            well_formed(final(self)@),
    {
        proof {
            use_type_invariant(&*self);
        }
        let ghost all = tokens.deep_view();
        let mut k: usize = 0;
        assert(all.take(0) =~= Seq::<Seq<char>>::empty());
        while k < tokens.len()
            invariant
                k <= tokens.len(),
                all == tokens.deep_view(),
                well_formed(self@),
                self@ == with_postings(old(self)@, all.take(k as int), id),
            decreases tokens.len() - k,
        {
            proof {
                assert(all.take(k + 1).drop_last() =~= all.take(k as int));
                assert(all.take(k + 1).last() == tokens[k as int]@);
            }
            self.add(tokens[k].as_str(), id);
            k += 1;
        }
        assert(all.take(tokens.len() as int) =~= all);
    }
}

} // verus!
