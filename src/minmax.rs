use vstd::prelude::*;

use crate::game::GameState;

verus! {

/// A searched position: the children that were explored under it, in the order they
/// were tried, and its minimax value at the depth it was searched.
pub struct GameTree<T> {
    pub state: T,
    pub children: Vec<T>,
    pub evaluation: i64,
}

/// One step of a principal variation.
pub struct MainLineItem<T> {
    pub state: T,
    pub evaluation: i64,
}

/// What the memo keeps of a searched position.
pub struct NodeModel<V> {
    pub children: Seq<V>,
    pub evaluation: i64,
}

pub open spec fn states_view<T: View>(s: Seq<T>) -> Seq<T::V> {
    s.map_values(|x: T| x@)
}

pub open spec fn node_of<T: View>(t: GameTree<T>) -> NodeModel<T::V> {
    NodeModel { children: states_view(t.children@), evaluation: t.evaluation }
}

/// The memo that a sequence of stored trees stands for; a later entry for a position
/// replaces an earlier one.
pub open spec fn memo_of<T: View>(s: Seq<GameTree<T>>) -> Map<T::V, NodeModel<T::V>>
    decreases s.len(),
{
    if s.len() == 0 {
        Map::empty()
    } else {
        memo_of(s.drop_last()).insert(s.last().state@, node_of(s.last()))
    }
}

pub proof fn lemma_memo_absent<T: View>(s: Seq<GameTree<T>>, k: T::V)
    requires
        forall|i: int| 0 <= i < s.len() ==> (#[trigger] s[i]).state@ != k,
    ensures
        !memo_of(s).contains_key(k),
    decreases s.len(),
{
    if s.len() > 0 {
        let t = s.drop_last();
        assert forall|i: int| 0 <= i < t.len() implies (#[trigger] t[i]).state@ != k by {
            assert(t[i] == s[i]);
        }
        lemma_memo_absent(t, k);
    }
}

pub proof fn lemma_memo_lookup<T: View>(s: Seq<GameTree<T>>, j: int)
    requires
        0 <= j < s.len(),
        forall|i: int| j < i < s.len() ==> (#[trigger] s[i]).state@ != s[j].state@,
    ensures
        memo_of(s).contains_key(s[j].state@),
        memo_of(s)[s[j].state@] == node_of(s[j]),
    decreases s.len(),
{
    if j < s.len() - 1 {
        let t = s.drop_last();
        assert(s[s.len() - 1].state@ != s[j].state@);
        assert forall|i: int| j < i < t.len() implies (#[trigger] t[i]).state@ != t[j].state@ by {
            assert(t[i] == s[i]);
        }
        lemma_memo_lookup(t, j);
    }
}

/// The score the search uses for a position: its evaluation, or 0 where there is none.
pub open spec fn eval_or_zero<T: GameState>(s: T::V) -> i64 {
    match T::score(s) {
        Some(v) => v,
        None => 0,
    }
}

/// Each legal action's resulting position with its score, in the order of the actions.
pub open spec fn successors<T: GameState>(s: T::V) -> Seq<(T::V, i64)> {
    T::actions_of(s).map_values(|a: <T::Action as View>::V| (T::apply_to(s, a), eval_or_zero::<T>(T::apply_to(s, a))))
}

/// `x` is strictly better than `y` for the side choosing.
pub open spec fn better(x: i64, y: i64, maximizing: bool) -> bool {
    if maximizing {
        x > y
    } else {
        x < y
    }
}

/// Inserts `x` into the ordered `s` after every entry that is at least as good.
pub open spec fn insert_ordered<V>(x: (V, i64), s: Seq<(V, i64)>, maximizing: bool) -> Seq<(V, i64)>
    decreases s.len(),
{
    if s.len() == 0 {
        seq![x]
    } else if better(x.1, s[0].1, maximizing) {
        seq![x] + s
    } else {
        seq![s[0]] + insert_ordered(x, s.drop_first(), maximizing)
    }
}

/// `s` sorted best first for the side choosing; equal scores keep their order.
pub open spec fn order_moves<V>(s: Seq<(V, i64)>, maximizing: bool) -> Seq<(V, i64)>
    decreases s.len(),
{
    if s.len() == 0 {
        seq![]
    } else {
        insert_ordered(s.last(), order_moves(s.drop_last(), maximizing), maximizing)
    }
}

/// The children of a position in the order the search tries them.
pub open spec fn ordered_children<T: GameState>(s: T::V, maximizing: bool) -> Seq<T::V> {
    order_moves(successors::<T>(s), maximizing).map_values(|x: (T::V, i64)| x.0)
}

/// The value a search node starts from before any child is seen.
pub open spec fn worst(maximizing: bool) -> i64 {
    if maximizing {
        i64::MIN
    } else {
        i64::MAX
    }
}

pub open spec fn pick(maximizing: bool, a: i64, b: i64) -> i64 {
    if maximizing {
        if a >= b { a } else { b }
    } else {
        if a <= b { a } else { b }
    }
}

/// A searched node and the memo after the search.
#[verifier::reject_recursive_types(V)]
pub struct SearchOutcome<V> {
    pub node: NodeModel<V>,
    pub memo: Map<V, NodeModel<V>>,
}

/// Depth-limited minimax with alpha-beta cutoffs and a memo of searched positions.
/// At depth 0 or on a terminal position the node is a leaf with the position's score.
/// Otherwise the children are tried best first by their own score; a child found in the
/// memo is reused as it is, whatever depth or window it was searched with, and any other
/// child is searched one ply deeper for the other side and stored.
pub open spec fn search<T: GameState>(
    s: T::V,
    depth: nat,
    maximizing: bool,
    memo: Map<T::V, NodeModel<T::V>>,
    alpha: i64,
    beta: i64,
) -> SearchOutcome<T::V>
    decreases depth, 1nat, 0nat,
{
    if depth == 0 || T::terminal(s) {
        SearchOutcome { node: NodeModel { children: seq![], evaluation: eval_or_zero::<T>(s) }, memo }
    } else {
        search_from::<T>(
            ordered_children::<T>(s, maximizing),
            (depth - 1) as nat,
            maximizing,
            memo,
            alpha,
            beta,
            seq![],
            worst(maximizing),
        )
    }
}

/// The rest of a node's search: `kids` are still to be tried, `done` were tried, and
/// `value` is the best child value so far. The maximizer stops once its value reaches
/// `beta`, the minimizer once its value falls to `alpha`.
pub open spec fn search_from<T: GameState>(
    kids: Seq<T::V>,
    depth: nat,
    maximizing: bool,
    memo: Map<T::V, NodeModel<T::V>>,
    alpha: i64,
    beta: i64,
    done: Seq<T::V>,
    value: i64,
) -> SearchOutcome<T::V>
    decreases depth + 1, 0nat, kids.len(),
{
    if kids.len() == 0 {
        SearchOutcome { node: NodeModel { children: done, evaluation: value }, memo }
    } else {
        let c = kids[0];
        let sub = search::<T>(c, depth, !maximizing, memo, alpha, beta);
        let child_value = if memo.contains_key(c) {
            memo[c].evaluation
        } else {
            sub.node.evaluation
        };
        let memo1 = if memo.contains_key(c) {
            memo
        } else {
            sub.memo.insert(c, sub.node)
        };
        let v = pick(maximizing, value, child_value);
        let done1 = done.push(c);
        if (maximizing && v >= beta) || (!maximizing && v <= alpha) {
            SearchOutcome { node: NodeModel { children: done1, evaluation: v }, memo: memo1 }
        } else {
            search_from::<T>(
                kids.drop_first(),
                depth,
                maximizing,
                memo1,
                if maximizing { pick(true, alpha, v) } else { alpha },
                if maximizing { beta } else { pick(false, beta, v) },
                done1,
                v,
            )
        }
    }
}

pub open spec fn pairs_view<T: View>(s: Seq<(T, i64)>) -> Seq<(T::V, i64)> {
    s.map_values(|x: (T, i64)| (x.0@, x.1))
}

/// Where `insert_ordered` puts `x`: before the first entry it is better than.
pub proof fn lemma_insert_ordered_at<V>(x: (V, i64), s: Seq<(V, i64)>, maximizing: bool, p: int)
    requires
        0 <= p <= s.len(),
        forall|j: int| 0 <= j < p ==> !better(x.1, (#[trigger] s[j]).1, maximizing),
        p < s.len() ==> better(x.1, s[p].1, maximizing),
    ensures
        insert_ordered(x, s, maximizing) == s.insert(p, x),
    decreases s.len(),
{
    if s.len() == 0 {
        assert(s.insert(p, x) =~= seq![x]);
    } else if p == 0 {
        assert(s.insert(p, x) =~= seq![x] + s);
    } else {
        let t = s.drop_first();
        assert forall|j: int| 0 <= j < p - 1 implies !better(x.1, (#[trigger] t[j]).1, maximizing) by {
            assert(t[j] == s[j + 1]);
        }
        if p < s.len() {
            assert(t[p - 1] == s[p]);
        }
        assert(!better(x.1, s[0].1, maximizing));
        lemma_insert_ordered_at(x, t, maximizing, p - 1);
        assert(s.insert(p, x) =~= seq![s[0]] + t.insert(p - 1, x));
    }
}

fn beats(x: i64, y: i64, maximizing: bool) -> (r: bool)
    ensures
        r == better(x, y, maximizing),
{
    if maximizing {
        x > y
    } else {
        x < y
    }
}

fn order_by_score<T: GameState>(items: &Vec<(T, i64)>, maximizing: bool) -> (r: Vec<(T, i64)>)
    ensures
        pairs_view(r@) == order_moves(pairs_view(items@), maximizing),
{
    let mut r: Vec<(T, i64)> = Vec::new();
    let mut i: usize = 0;
    while i < items.len()
        invariant
            i <= items@.len(),
            pairs_view(r@) == order_moves(pairs_view(items@.take(i as int)), maximizing),
        decreases items@.len() - i,
    {
        let key = items[i].1;
        let x = (items[i].0.copy_position(), key);
        let mut p: usize = 0;
        while p < r.len() && !beats(key, r[p].1, maximizing)
            invariant
                p <= r@.len(),
                forall|j: int| 0 <= j < p ==> !better(key, (#[trigger] pairs_view(r@)[j]).1, maximizing),
            decreases r@.len() - p,
        {
            p += 1;
        }
        proof {
            let xv = (x.0@, x.1);
            lemma_insert_ordered_at(xv, pairs_view(r@), maximizing, p as int);
            assert(pairs_view(items@.take(i + 1)).drop_last() =~= pairs_view(items@.take(i as int)));
            assert(pairs_view(items@.take(i + 1)).last() == xv);
        }
        let ghost before = r@;
        r.insert(p, x);
        assert(pairs_view(r@) =~= pairs_view(before).insert(p as int, (x.0@, x.1)));
        i += 1;
    }
    assert(items@.take(i as int) =~= items@);
    r
}

/// The positions met during one search, each with its searched tree.
pub struct ExploredStates<T> {
    entries: Vec<GameTree<T>>,
}

impl<T: GameState> ExploredStates<T> {
    pub closed spec fn view(&self) -> Map<T::V, NodeModel<T::V>> {
        memo_of(self.entries@)
    }

    pub closed spec fn size(&self) -> nat {
        self.entries@.len()
    }

    pub fn new() -> (r: ExploredStates<T>)
        ensures
            r.view() == Map::<T::V, NodeModel<T::V>>::empty(),
    {
        ExploredStates { entries: Vec::new() }
    }

    /// Number of stored trees.
    pub fn len(&self) -> (r: usize)
        ensures
            r == self.size(),
    {
        self.entries.len()
    }

    /// Where the tree of `state` is stored.
    fn find(&self, state: &T) -> (r: Option<usize>)
        ensures
            r is None <==> !self.view().contains_key(state@),
            r matches Some(i) ==> i < self.size() && self.entries@[i as int].state@ == state@
                && self.view()[state@] == node_of(self.entries@[i as int]),
    {
        let mut i: usize = self.entries.len();
        while i > 0
            invariant
                i <= self.entries@.len(),
                forall|k: int| i <= k < self.entries@.len() ==> (#[trigger] self.entries@[k]).state@ != state@,
            decreases i,
        {
            if self.entries[i - 1].state.same_position(state) {
                proof {
                    lemma_memo_lookup(self.entries@, i - 1);
                }
                return Some(i - 1);
            }
            i -= 1;
        }
        proof {
            lemma_memo_absent(self.entries@, state@);
        }
        None
    }

    /// The stored tree of `state`, if there is one.
    pub fn get(&self, state: &T) -> (r: Option<&GameTree<T>>)
        ensures
            r is None <==> !self.view().contains_key(state@),
            r matches Some(t) ==> t.state@ == state@ && self.view()[state@] == node_of(*t),
    {
        match self.find(state) {
            Some(i) => Some(&self.entries[i]),
            None => None,
        }
    }

    /// Stores `tree` under its position, replacing what was stored there.
    pub fn insert(&mut self, tree: GameTree<T>)
        ensures
            final(self).view() == old(self).view().insert(tree.state@, node_of(tree)),
            final(self).size() == old(self).size() + 1,
    {
        let ghost old_entries = self.entries@;
        self.entries.push(tree);
        assert(self.entries@.drop_last() =~= old_entries);
    }
}

/// The child chosen so far among the first children: the position of the first child
/// whose stored value is strictly better than every earlier stored one (the first stored
/// child to begin with), with that value. Children missing from the memo are passed over.
pub open spec fn best_from<V>(children: Seq<V>, memo: Map<V, NodeModel<V>>, maximizing: bool) -> Option<(int, i64)>
    decreases children.len(),
{
    if children.len() == 0 {
        None
    } else {
        let prev = best_from(children.drop_last(), memo, maximizing);
        let c = children.last();
        if memo.contains_key(c) && (prev is None || better(memo[c].evaluation, (prev->0).1, maximizing)) {
            Some(((children.len() - 1) as int, memo[c].evaluation))
        } else {
            prev
        }
    }
}

/// The first child whose stored value equals `value`.
pub open spec fn first_match<V>(children: Seq<V>, memo: Map<V, NodeModel<V>>, value: i64) -> Option<V>
    decreases children.len(),
{
    if children.len() == 0 {
        None
    } else if memo.contains_key(children[0]) && memo[children[0]].evaluation == value {
        Some(children[0])
    } else {
        first_match(children.drop_first(), memo, value)
    }
}

/// The principal variation from a node: the node with its value, then, at most `steps`
/// times, the first child whose stored value equals the current node's value, with that
/// value.
pub open spec fn line_from<V>(
    memo: Map<V, NodeModel<V>>,
    s: V,
    children: Seq<V>,
    value: i64,
    steps: nat,
) -> Seq<(V, i64)>
    decreases steps,
{
    seq![(s, value)] + if steps == 0 {
        seq![]
    } else {
        match first_match(children, memo, value) {
            Some(c) => line_from(memo, c, memo[c].children, memo[c].evaluation, (steps - 1) as nat),
            None => seq![],
        }
    }
}

pub open spec fn items_view<T: View>(s: Seq<MainLineItem<T>>) -> Seq<(T::V, i64)> {
    s.map_values(|x: MainLineItem<T>| (x.state@, x.evaluation))
}

impl<T: GameState> GameTree<T> {
    /// A tree for `state` with no children yet and value 0.
    pub fn new(state: T) -> (r: GameTree<T>)
        ensures
            r.state@ == state@,
            r.children@.len() == 0,
            r.evaluation == 0,
    {
        GameTree { state, children: Vec::new(), evaluation: 0 }
    }

    pub fn get_children(&self) -> (r: &Vec<T>)
        ensures
            r@ == self.children@,
    {
        &self.children
    }

    pub fn get_evaluation(&self) -> (r: i64)
        ensures
            r == self.evaluation,
    {
        self.evaluation
    }

    /// The principal variation of this tree: the root with its evaluation, then stored
    /// children whose value equals their parent's; it visits at most as many children as
    /// the memo holds. A tree without children has an empty line.
    pub fn get_main_line(&self, explored_states: &ExploredStates<T>) -> (line: Vec<MainLineItem<T>>)
        ensures
            self.children@.len() == 0 ==> line@.len() == 0,
            self.children@.len() > 0 ==> items_view(line@) == line_from(
                explored_states.view(),
                self.state@,
                states_view(self.children@),
                self.evaluation,
                explored_states.size(),
            ),
    {
        let ghost memo = explored_states.view();
        let ghost total = line_from(memo, self.state@, states_view(self.children@), self.evaluation, explored_states.size());
        let mut main_line: Vec<MainLineItem<T>> = Vec::new();
        if self.children.len() == 0 {
            return main_line;
        }
        let mut current: &GameTree<T> = self;
        let mut steps: usize = explored_states.len();
        let mut done = false;
        while !done
            invariant
                memo == explored_states.view(),
                !done ==> items_view(main_line@) + line_from(
                    memo,
                    current.state@,
                    states_view(current.children@),
                    current.evaluation,
                    steps as nat,
                ) == total,
                done ==> items_view(main_line@) == total,
            decreases steps + if done { 0int } else { 1int },
        {
            let ghost rest = line_from(memo, current.state@, states_view(current.children@), current.evaluation, steps as nat);
            let value = current.evaluation;
            let ghost before = main_line@;
            main_line.push(MainLineItem { state: current.state.copy_position(), evaluation: value });
            assert(items_view(main_line@) =~= items_view(before).push((current.state@, value)));
            if steps == 0 {
                assert(items_view(main_line@) =~= items_view(before) + rest);
                done = true;
            } else {
                let ghost kids = states_view(current.children@);
                let mut k: usize = 0;
                let mut next: Option<&GameTree<T>> = None;
                assert(kids.skip(0) =~= kids);
                while k < current.children.len() && next.is_none()
                    invariant
                        memo == explored_states.view(),
                        k <= current.children@.len(),
                        kids == states_view(current.children@),
                        next is None ==> first_match(kids, memo, current.evaluation) == first_match(kids.skip(k as int), memo, current.evaluation),
                        next matches Some(t) ==> first_match(kids, memo, current.evaluation) == Some(t.state@) && memo[t.state@] == node_of(*t),
                    decreases current.children@.len() - k + if next is None { 1int } else { 0int },
                {
                    let ghost tail = kids.skip(k as int);
                    assert(tail[0] == current.children@[k as int]@);
                    assert(tail.drop_first() =~= kids.skip(k + 1));
                    match explored_states.get(&current.children[k]) {
                        Some(t) => {
                            if t.evaluation == current.evaluation {
                                next = Some(t);
                            }
                        },
                        None => {},
                    }
                    k += 1;
                }
                match next {
                    Some(t) => {
                        current = t;
                        steps -= 1;
                    },
                    None => {
                        assert(kids.skip(k as int) =~= Seq::<T::V>::empty());
                        assert(items_view(main_line@) =~= items_view(before) + rest);
                        done = true;
                    },
                }
            }
        }
        main_line
    }

    /// The child whose stored value is the best for the side choosing, the first one
    /// among equals; `None` exactly when no child is stored.
    pub fn best_child(&self, maximizing_player: bool, explored_states: &ExploredStates<T>) -> (r: Option<&T>)
        ensures
            r is None <==> forall|i: int|
                0 <= i < self.children@.len() ==> !explored_states.view().contains_key(#[trigger] self.children@[i]@),
            best_from(states_view(self.children@), explored_states.view(), maximizing_player) is None ==> r is None,
            best_from(states_view(self.children@), explored_states.view(), maximizing_player) matches Some(b) ==> (
            r matches Some(c) && *c == self.children@[b.0]),
    {
        let ghost memo = explored_states.view();
        let ghost kids = states_view(self.children@);
        if self.children.len() == 0 {
            return None;
        }
        let mut best: Option<usize> = None;
        let mut best_evaluation: i64 = if maximizing_player {
            i64::MIN
        } else {
            i64::MAX
        };
        let mut k: usize = 0;
        while k < self.children.len()
            invariant
                k <= self.children@.len(),
                memo == explored_states.view(),
                kids == states_view(self.children@),
                best_from(kids.take(k as int), memo, maximizing_player) matches Some(b) ==> best == Some(b.0 as usize)
                    && best_evaluation == b.1 && 0 <= b.0 < k,
                best_from(kids.take(k as int), memo, maximizing_player) is None ==> best is None,
                best is None <==> forall|j: int| 0 <= j < k ==> !memo.contains_key(#[trigger] kids[j]),
            decreases self.children@.len() - k,
        {
            assert(kids.take(k + 1).drop_last() =~= kids.take(k as int));
            assert(kids.take(k + 1).last() == self.children@[k as int]@);
            match explored_states.get(&self.children[k]) {
                Some(t) => {
                    if best.is_none() || (maximizing_player && t.evaluation > best_evaluation) || (!maximizing_player
                        && t.evaluation < best_evaluation) {
                        best_evaluation = t.evaluation;
                        best = Some(k);
                    }
                },
                None => {},
            }
            k += 1;
        }
        assert(kids.take(k as int) =~= kids);
        assert forall|i: int| 0 <= i < self.children@.len() implies #[trigger] self.children@[i]@ == kids[i] by {}
        match best {
            Some(i) => Some(&self.children[i]),
            None => None,
        }
    }
}

/// Plain minimax, with neither cutoffs nor memo: the best value over all children,
/// taken in the order of the actions.
pub open spec fn minimax_value<T: GameState>(s: T::V, depth: nat, maximizing: bool) -> i64
    decreases depth, 1nat, 0nat,
{
    if depth == 0 || T::terminal(s) {
        eval_or_zero::<T>(s)
    } else {
        best_of_children::<T>(s, T::actions_of(s), (depth - 1) as nat, maximizing)
    }
}

pub open spec fn best_of_children<T: GameState>(
    s: T::V,
    acts: Seq<<T::Action as View>::V>,
    depth: nat,
    maximizing: bool,
) -> i64
    decreases depth + 1, 0nat, acts.len(),
{
    if acts.len() == 0 {
        worst(maximizing)
    } else {
        pick(
            maximizing,
            best_of_children::<T>(s, acts.drop_last(), depth, maximizing),
            minimax_value::<T>(T::apply_to(s, acts.last()), depth, !maximizing),
        )
    }
}

pub proof fn lemma_insert_ordered_contains<V>(x: (V, i64), s: Seq<(V, i64)>, maximizing: bool, e: (V, i64))
    ensures
        insert_ordered(x, s, maximizing).contains(e) <==> (e == x || s.contains(e)),
    decreases s.len(),
{
    let r = insert_ordered(x, s, maximizing);
    if s.len() == 0 {
        assert(r == seq![x]);
        if r.contains(e) {
            let k = choose|k: int| 0 <= k < r.len() && r[k] == e;
        }
        if e == x {
            assert(r[0] == x);
        }
    } else if better(x.1, s[0].1, maximizing) {
        assert(r == seq![x] + s);
        if r.contains(e) {
            let k = choose|k: int| 0 <= k < r.len() && r[k] == e;
            if k > 0 {
                assert(s[k - 1] == e);
            }
        }
        if e == x {
            assert(r[0] == e);
        }
        if s.contains(e) {
            let k = choose|k: int| 0 <= k < s.len() && s[k] == e;
            assert(r[k + 1] == e);
        }
    } else {
        let t = s.drop_first();
        let rt = insert_ordered(x, t, maximizing);
        lemma_insert_ordered_contains(x, t, maximizing, e);
        assert(r == seq![s[0]] + rt);
        if r.contains(e) {
            let k = choose|k: int| 0 <= k < r.len() && r[k] == e;
            if k == 0 {
                assert(s[0] == e);
            } else {
                assert(rt[k - 1] == e);
                if t.contains(e) {
                    let m = choose|m: int| 0 <= m < t.len() && t[m] == e;
                    assert(s[m + 1] == e);
                }
            }
        }
        if e == x || s.contains(e) {
            if e == s[0] {
                assert(r[0] == e);
            } else {
                if e != x {
                    let k = choose|k: int| 0 <= k < s.len() && s[k] == e;
                    assert(k != 0);
                    assert(t[k - 1] == e);
                }
                assert(rt.contains(e));
                let m = choose|m: int| 0 <= m < rt.len() && rt[m] == e;
                assert(r[m + 1] == e);
            }
        }
    }
}

/// Ordering keeps exactly the entries it was given.
pub proof fn lemma_order_moves_contains<V>(s: Seq<(V, i64)>, maximizing: bool, e: (V, i64))
    ensures
        order_moves(s, maximizing).contains(e) <==> s.contains(e),
    decreases s.len(),
{
    if s.len() > 0 {
        let t = s.drop_last();
        lemma_order_moves_contains(t, maximizing, e);
        lemma_insert_ordered_contains(s.last(), order_moves(t, maximizing), maximizing, e);
        if t.contains(e) {
            let k = choose|k: int| 0 <= k < t.len() && t[k] == e;
            assert(s[k] == e);
        }
        if s.contains(e) {
            let k = choose|k: int| 0 <= k < s.len() && s[k] == e;
            if k < s.len() - 1 {
                assert(t[k] == e);
            }
        }
    } else {
        assert(order_moves(s, maximizing) =~= Seq::<(V, i64)>::empty());
    }
}

pub open spec fn child_score<T: GameState>(s: T::V, a: <T::Action as View>::V) -> i64 {
    eval_or_zero::<T>(T::apply_to(s, a))
}

/// The children in search order are the children of the actions, as a set.
pub proof fn lemma_ordered_children_scores<T: GameState>(s: T::V, maximizing: bool, v: i64)
    ensures
        (exists|j: int| 0 <= j < ordered_children::<T>(s, maximizing).len() && v == eval_or_zero::<T>(
            #[trigger] ordered_children::<T>(s, maximizing)[j],
        )) ==> exists|i: int| 0 <= i < T::actions_of(s).len() && v == child_score::<T>(s, #[trigger] T::actions_of(s)[i]),
        (forall|j: int| 0 <= j < ordered_children::<T>(s, maximizing).len() ==> !better(
            eval_or_zero::<T>(#[trigger] ordered_children::<T>(s, maximizing)[j]),
            v,
            maximizing,
        )) ==> forall|i: int| 0 <= i < T::actions_of(s).len() ==> !better(
            child_score::<T>(s, #[trigger] T::actions_of(s)[i]),
            v,
            maximizing,
        ),
{
    let succ = successors::<T>(s);
    let ord = order_moves(succ, maximizing);
    let kids = ordered_children::<T>(s, maximizing);
    if exists|j: int| 0 <= j < kids.len() && v == eval_or_zero::<T>(#[trigger] kids[j]) {
        let j = choose|j: int| 0 <= j < kids.len() && v == eval_or_zero::<T>(#[trigger] kids[j]);
        lemma_order_moves_contains(succ, maximizing, ord[j]);
        assert(ord.contains(ord[j]));
        let i = choose|i: int| 0 <= i < succ.len() && succ[i] == ord[j];
        assert(v == child_score::<T>(s, T::actions_of(s)[i]));
    }
    if forall|j: int| 0 <= j < kids.len() ==> !better(eval_or_zero::<T>(#[trigger] kids[j]), v, maximizing) {
        assert forall|i: int| 0 <= i < T::actions_of(s).len() implies !better(
            child_score::<T>(s, #[trigger] T::actions_of(s)[i]),
            v,
            maximizing,
        ) by {
            lemma_order_moves_contains(succ, maximizing, succ[i]);
            assert(succ.contains(succ[i]));
            let j = choose|j: int| 0 <= j < ord.len() && ord[j] == succ[i];
            assert(kids[j] == T::apply_to(s, T::actions_of(s)[i]));
        }
    }
}

/// A depth-one search from an empty memo with the full window gives a position the
/// score of its best child: the largest child score for the maximizer, the smallest
/// for the minimizer.
pub proof fn lemma_depth_one_value<T: GameState>(s: T::V, maximizing: bool)
    requires
        !T::terminal(s),
        T::actions_of(s).len() > 0,
    ensures
        ({
            let v = search::<T>(s, 1, maximizing, Map::empty(), i64::MIN, i64::MAX).node.evaluation;
            &&& exists|i: int| 0 <= i < T::actions_of(s).len() && v == child_score::<T>(s, #[trigger] T::actions_of(s)[i])
            &&& forall|i: int|
                0 <= i < T::actions_of(s).len() ==> !better(child_score::<T>(s, #[trigger] T::actions_of(s)[i]), v, maximizing)
        }),
{
    let kids = ordered_children::<T>(s, maximizing);
    let memo = Map::<T::V, NodeModel<T::V>>::empty();
    let v = search::<T>(s, 1, maximizing, memo, i64::MIN, i64::MAX).node.evaluation;
    assert(v == search_from::<T>(kids, 0, maximizing, memo, i64::MIN, i64::MAX, seq![], worst(maximizing)).node.evaluation);
    lemma_leaf_scan_window::<T>(kids, maximizing, memo, i64::MIN, i64::MAX, seq![], worst(maximizing));
    let succ = successors::<T>(s);
    lemma_order_moves_contains(succ, maximizing, succ[0]);
    assert(succ.contains(succ[0]));
    assert(kids.len() > 0);
    if v == worst(maximizing) {
        assert(!better(eval_or_zero::<T>(kids[0]), v, maximizing));
        assert(v == eval_or_zero::<T>(kids[0]));
    }
    lemma_ordered_children_scores::<T>(s, maximizing, v);
}

/// Up to depth one, the search from an empty memo with the full window values the
/// position as plain minimax does, without cutoffs or memo. (Deeper, the memo may reuse
/// a value found under another depth or window.)
pub proof fn lemma_pruning_keeps_value<T: GameState>(s: T::V, depth: nat, maximizing: bool)
    requires
        depth <= 1,
    ensures
        search::<T>(s, depth, maximizing, Map::empty(), i64::MIN, i64::MAX).node.evaluation == minimax_value::<T>(
            s,
            depth,
            maximizing,
        ),
{
    if depth == 1 && !T::terminal(s) {
        let acts = T::actions_of(s);
        let v = search::<T>(s, 1, maximizing, Map::empty(), i64::MIN, i64::MAX).node.evaluation;
        let m = minimax_value::<T>(s, 1, maximizing);
        assert(m == best_of_children::<T>(s, acts, 0, maximizing));
        if acts.len() == 0 {
            let succ = successors::<T>(s);
            assert(succ.len() == 0);
            assert(order_moves(succ, maximizing) =~= Seq::<(T::V, i64)>::empty());
            assert(ordered_children::<T>(s, maximizing).len() == 0);
        } else {
            lemma_depth_one_value::<T>(s, maximizing);
            lemma_best_of_children::<T>(s, acts, 0, maximizing);
            assert forall|k: int| 0 <= k < acts.len() implies minimax_value::<T>(T::apply_to(s, #[trigger] acts[k]), 0, !maximizing)
                == child_score::<T>(s, acts[k]) by {}
            let i = choose|i: int| 0 <= i < acts.len() && v == child_score::<T>(s, #[trigger] acts[i]);
            let j = choose|j: int|
                0 <= j < acts.len() && m == minimax_value::<T>(T::apply_to(s, #[trigger] acts[j]), 0, !maximizing);
            assert(!better(child_score::<T>(s, acts[i]), m, maximizing));
            assert(!better(child_score::<T>(s, acts[j]), v, maximizing));
        }
    }
}

/// `c` is one action away from `s`.
pub open spec fn is_child<T: GameState>(s: T::V, c: T::V) -> bool {
    exists|i: int| 0 <= i < T::actions_of(s).len() && c == T::apply_to(s, #[trigger] T::actions_of(s)[i])
}

/// `g` is two actions away from `s`.
pub open spec fn is_grandchild<T: GameState>(s: T::V, g: T::V) -> bool {
    exists|i: int| 0 <= i < T::actions_of(s).len() && is_child::<T>(T::apply_to(s, #[trigger] T::actions_of(s)[i]), g)
}

/// The children in search order are exactly the children of the actions.
pub proof fn lemma_ordered_children_match<T: GameState>(s: T::V, maximizing: bool)
    ensures
        ordered_children::<T>(s, maximizing).len() == 0 <==> T::actions_of(s).len() == 0,
        forall|j: int| 0 <= j < ordered_children::<T>(s, maximizing).len() ==> is_child::<T>(s, #[trigger] ordered_children::<T>(s, maximizing)[j]),
        forall|i: int|
            0 <= i < T::actions_of(s).len() ==> exists|j: int|
                0 <= j < ordered_children::<T>(s, maximizing).len() && #[trigger] ordered_children::<T>(s, maximizing)[j]
                    == T::apply_to(s, #[trigger] T::actions_of(s)[i]),
{
    let succ = successors::<T>(s);
    let ord = order_moves(succ, maximizing);
    let kids = ordered_children::<T>(s, maximizing);
    assert forall|j: int| 0 <= j < kids.len() implies is_child::<T>(s, #[trigger] kids[j]) by {
        lemma_order_moves_contains(succ, maximizing, ord[j]);
        assert(ord.contains(ord[j]));
        let i = choose|i: int| 0 <= i < succ.len() && succ[i] == ord[j];
        assert(kids[j] == T::apply_to(s, T::actions_of(s)[i]));
    }
    assert forall|i: int| 0 <= i < T::actions_of(s).len() implies exists|j: int|
        0 <= j < kids.len() && #[trigger] kids[j] == T::apply_to(s, #[trigger] T::actions_of(s)[i]) by {
        lemma_order_moves_contains(succ, maximizing, succ[i]);
        assert(succ.contains(succ[i]));
        let j = choose|j: int| 0 <= j < ord.len() && ord[j] == succ[i];
        assert(kids[j] == T::apply_to(s, T::actions_of(s)[i]));
    }
    if T::actions_of(s).len() > 0 {
        lemma_order_moves_contains(succ, maximizing, succ[0]);
        assert(succ.contains(succ[0]));
    } else {
        assert(ord =~= Seq::<(T::V, i64)>::empty());
    }
}

/// Plain minimax picks one of the children's values, and none is better.
pub proof fn lemma_best_of_children<T: GameState>(
    s: T::V,
    acts: Seq<<T::Action as View>::V>,
    depth: nat,
    maximizing: bool,
)
    requires
        acts.len() > 0,
    ensures
        ({
            let v = best_of_children::<T>(s, acts, depth, maximizing);
            &&& exists|i: int|
                0 <= i < acts.len() && v == minimax_value::<T>(T::apply_to(s, #[trigger] acts[i]), depth, !maximizing)
            &&& forall|i: int|
                0 <= i < acts.len() ==> !better(
                    minimax_value::<T>(T::apply_to(s, #[trigger] acts[i]), depth, !maximizing),
                    v,
                    maximizing,
                )
        }),
    decreases acts.len(),
{
    let v = best_of_children::<T>(s, acts, depth, maximizing);
    let t = acts.drop_last();
    if acts.len() == 1 {
        assert(best_of_children::<T>(s, t, depth, maximizing) == worst(maximizing));
        assert(v == minimax_value::<T>(T::apply_to(s, acts[0]), depth, !maximizing));
    } else {
        lemma_best_of_children::<T>(s, t, depth, maximizing);
        let prev = best_of_children::<T>(s, t, depth, maximizing);
        assert forall|i: int| 0 <= i < acts.len() implies !better(
            minimax_value::<T>(T::apply_to(s, #[trigger] acts[i]), depth, !maximizing),
            v,
            maximizing,
        ) by {
            if i < t.len() {
                assert(acts[i] == t[i]);
            }
        }
        if v == prev {
            let j = choose|j: int|
                0 <= j < t.len() && prev == minimax_value::<T>(T::apply_to(s, #[trigger] t[j]), depth, !maximizing);
            assert(acts[j] == t[j]);
        } else {
            assert(v == minimax_value::<T>(T::apply_to(s, acts[acts.len() - 1]), depth, !maximizing));
        }
    }
}

/// The search stopped a node early: the minimizer fell to `alpha`, the maximizer
/// reached `beta`.
pub open spec fn cut_off(v: i64, maximizing: bool, alpha: i64, beta: i64) -> bool {
    if maximizing {
        v >= beta
    } else {
        v <= alpha
    }
}

pub proof fn lemma_leaf_scan_window<T: GameState>(
    kids: Seq<T::V>,
    maximizing: bool,
    memo: Map<T::V, NodeModel<T::V>>,
    alpha: i64,
    beta: i64,
    done: Seq<T::V>,
    value: i64,
)
    requires
        forall|j: int|
            0 <= j < kids.len() && memo.contains_key(#[trigger] kids[j]) ==> memo[kids[j]].evaluation == eval_or_zero::<T>(
                kids[j],
            ),
    ensures
        ({
            let o = search_from::<T>(kids, 0, maximizing, memo, alpha, beta, done, value);
            let v = o.node.evaluation;
            &&& v == value || exists|i: int| 0 <= i < kids.len() && v == eval_or_zero::<T>(#[trigger] kids[i])
            &&& !better(value, v, maximizing)
            &&& cut_off(v, maximizing, alpha, beta) || forall|i: int|
                0 <= i < kids.len() ==> !better(eval_or_zero::<T>(#[trigger] kids[i]), v, maximizing)
            &&& forall|k: T::V|
                #[trigger] o.memo.contains_key(k) ==> (memo.contains_key(k) && o.memo[k] == memo[k]) || (kids.contains(k)
                    && o.memo[k].evaluation == eval_or_zero::<T>(k))
        }),
    decreases kids.len(),
{
    if kids.len() > 0 {
        let c = kids[0];
        let sub = search::<T>(c, 0, !maximizing, memo, alpha, beta);
        let memo1 = if memo.contains_key(c) {
            memo
        } else {
            sub.memo.insert(c, sub.node)
        };
        let child_value = if memo.contains_key(c) {
            memo[c].evaluation
        } else {
            sub.node.evaluation
        };
        assert(child_value == eval_or_zero::<T>(c));
        let v1 = pick(maximizing, value, child_value);
        let rest = kids.drop_first();
        let o = search_from::<T>(kids, 0, maximizing, memo, alpha, beta, done, value);
        let v = o.node.evaluation;
        assert(kids.contains(c));
        if (maximizing && v1 >= beta) || (!maximizing && v1 <= alpha) {
            assert(v == v1);
            if v1 != value {
                assert(v == eval_or_zero::<T>(kids[0]));
            }
        } else {
            let a2 = if maximizing { pick(true, alpha, v1) } else { alpha };
            let b2 = if maximizing { beta } else { pick(false, beta, v1) };
            assert forall|j: int|
                0 <= j < rest.len() && memo1.contains_key(#[trigger] rest[j]) implies memo1[rest[j]].evaluation
                == eval_or_zero::<T>(rest[j]) by {
                assert(rest[j] == kids[j + 1]);
            }
            lemma_leaf_scan_window::<T>(rest, maximizing, memo1, a2, b2, done.push(c), v1);
            let o2 = search_from::<T>(rest, 0, maximizing, memo1, a2, b2, done.push(c), v1);
            assert(o == o2);
            if !cut_off(v, maximizing, a2, b2) {
                assert forall|i: int| 0 <= i < kids.len() implies !better(eval_or_zero::<T>(#[trigger] kids[i]), v, maximizing) by {
                    if i > 0 {
                        assert(kids[i] == rest[i - 1]);
                    }
                }
            }
            if v != value {
                if v == v1 {
                    assert(v == eval_or_zero::<T>(kids[0]));
                } else {
                    let j = choose|j: int| 0 <= j < rest.len() && v == eval_or_zero::<T>(#[trigger] rest[j]);
                    assert(rest[j] == kids[j + 1]);
                }
            }
            assert forall|k: T::V| #[trigger] o.memo.contains_key(k) implies (memo.contains_key(k) && o.memo[k] == memo[k])
                || (kids.contains(k) && o.memo[k].evaluation == eval_or_zero::<T>(k)) by {
                if rest.contains(k) {
                    let j = choose|j: int| 0 <= j < rest.len() && rest[j] == k;
                    assert(kids[j + 1] == k);
                }
            }
        }
    }
}

/// A depth-one search never values a node better than plain minimax does, and gives
/// the plain value whenever it was not stopped early.
pub proof fn lemma_depth_one_window<T: GameState>(
    c: T::V,
    maximizing: bool,
    memo: Map<T::V, NodeModel<T::V>>,
    alpha: i64,
    beta: i64,
)
    requires
        forall|k: T::V| is_child::<T>(c, k) && memo.contains_key(k) ==> #[trigger] memo[k].evaluation == eval_or_zero::<T>(k),
    ensures
        ({
            let o = search::<T>(c, 1, maximizing, memo, alpha, beta);
            let v = o.node.evaluation;
            let t = minimax_value::<T>(c, 1, maximizing);
            &&& !better(v, t, maximizing)
            &&& !cut_off(v, maximizing, alpha, beta) ==> v == t
            &&& forall|k: T::V|
                #[trigger] o.memo.contains_key(k) ==> (memo.contains_key(k) && o.memo[k] == memo[k]) || (is_child::<T>(c, k)
                    && o.memo[k].evaluation == eval_or_zero::<T>(k))
        }),
{
    if !T::terminal(c) {
        let kids = ordered_children::<T>(c, maximizing);
        let acts = T::actions_of(c);
        lemma_ordered_children_match::<T>(c, maximizing);
        assert forall|j: int| 0 <= j < kids.len() && memo.contains_key(#[trigger] kids[j]) implies memo[kids[j]].evaluation
            == eval_or_zero::<T>(kids[j]) by {
            assert(is_child::<T>(c, kids[j]));
        }
        lemma_leaf_scan_window::<T>(kids, maximizing, memo, alpha, beta, seq![], worst(maximizing));
        let o = search::<T>(c, 1, maximizing, memo, alpha, beta);
        let v = o.node.evaluation;
        let t = minimax_value::<T>(c, 1, maximizing);
        assert(o == search_from::<T>(kids, 0, maximizing, memo, alpha, beta, seq![], worst(maximizing)));
        assert(t == best_of_children::<T>(c, acts, 0, maximizing));
        assert forall|k: T::V| #[trigger] o.memo.contains_key(k) implies (memo.contains_key(k) && o.memo[k] == memo[k])
            || (is_child::<T>(c, k) && o.memo[k].evaluation == eval_or_zero::<T>(k)) by {
            if kids.contains(k) && !(memo.contains_key(k) && o.memo[k] == memo[k]) {
                let j = choose|j: int| 0 <= j < kids.len() && kids[j] == k;
                assert(is_child::<T>(c, kids[j]));
            }
        }
        if acts.len() > 0 {
            lemma_best_of_children::<T>(c, acts, 0, maximizing);
            let i = choose|i: int|
                0 <= i < acts.len() && t == minimax_value::<T>(T::apply_to(c, #[trigger] acts[i]), 0, !maximizing);
            let ji = choose|j: int| 0 <= j < kids.len() && #[trigger] kids[j] == T::apply_to(c, acts[i]);
            if v != worst(maximizing) {
                let j = choose|j: int| 0 <= j < kids.len() && v == eval_or_zero::<T>(#[trigger] kids[j]);
                assert(is_child::<T>(c, kids[j]));
                let i2 = choose|i2: int| 0 <= i2 < acts.len() && kids[j] == T::apply_to(c, #[trigger] acts[i2]);
                assert(!better(minimax_value::<T>(T::apply_to(c, acts[i2]), 0, !maximizing), t, maximizing));
            }
            if !cut_off(v, maximizing, alpha, beta) {
                assert(!better(eval_or_zero::<T>(kids[ji]), v, maximizing));
            }
        }
    }
}

/// What the root of a depth-two search may find in its memo: leaves for the
/// grandchildren, and for the children values that are never better than plain minimax
/// and equal to it wherever they beat the root's value so far.
pub open spec fn root_memo_ok<T: GameState>(
    s: T::V,
    maximizing: bool,
    memo: Map<T::V, NodeModel<T::V>>,
    value: i64,
) -> bool {
    forall|k: T::V|
        #[trigger] memo.contains_key(k) ==> {
            ||| is_grandchild::<T>(s, k) && memo[k].evaluation == eval_or_zero::<T>(k)
            ||| is_child::<T>(s, k) && !better(memo[k].evaluation, minimax_value::<T>(k, 1, !maximizing), !maximizing)
                && (better(memo[k].evaluation, value, maximizing) ==> memo[k].evaluation == minimax_value::<T>(
                k,
                1,
                !maximizing,
            ))
        }
}

/// No position is both a child and a grandchild of `s`.
pub open spec fn plies_apart<T: GameState>(s: T::V) -> bool {
    forall|k: T::V| #[trigger] is_child::<T>(s, k) ==> !is_grandchild::<T>(s, k)
}

pub proof fn lemma_root_scan<T: GameState>(
    s: T::V,
    kids: Seq<T::V>,
    maximizing: bool,
    memo: Map<T::V, NodeModel<T::V>>,
    alpha: i64,
    beta: i64,
    done: Seq<T::V>,
    value: i64,
)
    requires
        plies_apart::<T>(s),
        forall|j: int| 0 <= j < kids.len() ==> is_child::<T>(s, #[trigger] kids[j]),
        root_memo_ok::<T>(s, maximizing, memo, value),
        maximizing ==> alpha == value && beta == i64::MAX,
        !maximizing ==> beta == value && alpha == i64::MIN,
    ensures
        ({
            let v = search_from::<T>(kids, 1, maximizing, memo, alpha, beta, done, value).node.evaluation;
            &&& v == value || exists|j: int|
                0 <= j < kids.len() && v == minimax_value::<T>(#[trigger] kids[j], 1, !maximizing)
            &&& !better(value, v, maximizing)
            &&& forall|j: int|
                0 <= j < kids.len() ==> !better(minimax_value::<T>(#[trigger] kids[j], 1, !maximizing), v, maximizing)
        }),
    decreases kids.len(),
{
    if kids.len() > 0 {
        let c = kids[0];
        assert(is_child::<T>(s, c));
        let t = minimax_value::<T>(c, 1, !maximizing);
        let sub = search::<T>(c, 1, !maximizing, memo, alpha, beta);
        let memo1 = if memo.contains_key(c) {
            memo
        } else {
            sub.memo.insert(c, sub.node)
        };
        let cv = if memo.contains_key(c) {
            memo[c].evaluation
        } else {
            sub.node.evaluation
        };
        if memo.contains_key(c) {
            assert(!is_grandchild::<T>(s, c));
        } else {
            assert forall|k: T::V| is_child::<T>(c, k) && memo.contains_key(k) implies #[trigger] memo[k].evaluation
                == eval_or_zero::<T>(k) by {
                let i = choose|i: int| 0 <= i < T::actions_of(s).len() && c == T::apply_to(s, #[trigger] T::actions_of(s)[i]);
                assert(is_grandchild::<T>(s, k));
                if is_child::<T>(s, k) {
                    assert(!is_grandchild::<T>(s, k));
                }
            }
            lemma_depth_one_window::<T>(c, !maximizing, memo, alpha, beta);
        }
        assert(!better(cv, t, !maximizing));
        assert(better(cv, value, maximizing) ==> cv == t);
        let v1 = pick(maximizing, value, cv);
        assert(root_memo_ok::<T>(s, maximizing, memo1, v1)) by {
            assert forall|k: T::V| #[trigger] memo1.contains_key(k) implies {
                ||| is_grandchild::<T>(s, k) && memo1[k].evaluation == eval_or_zero::<T>(k)
                ||| is_child::<T>(s, k) && !better(memo1[k].evaluation, minimax_value::<T>(k, 1, !maximizing), !maximizing)
                    && (better(memo1[k].evaluation, v1, maximizing) ==> memo1[k].evaluation == minimax_value::<T>(
                    k,
                    1,
                    !maximizing,
                ))
            } by {
                if !memo.contains_key(c) && k != c {
                    if !(memo.contains_key(k) && sub.memo[k] == memo[k]) {
                        let i = choose|i: int| 0 <= i < T::actions_of(s).len() && c == T::apply_to(s, #[trigger] T::actions_of(s)[i]);
                        assert(is_grandchild::<T>(s, k));
                    }
                }
            }
        }
        let rest = kids.drop_first();
        let v = search_from::<T>(kids, 1, maximizing, memo, alpha, beta, done, value).node.evaluation;
        if (maximizing && v1 >= beta) || (!maximizing && v1 <= alpha) {
            assert(v == v1);
            if v1 != value {
                assert(v == minimax_value::<T>(kids[0], 1, !maximizing));
            }
        } else {
            let a2 = if maximizing { pick(true, alpha, v1) } else { alpha };
            let b2 = if maximizing { beta } else { pick(false, beta, v1) };
            assert forall|j: int| 0 <= j < rest.len() implies is_child::<T>(s, #[trigger] rest[j]) by {
                assert(rest[j] == kids[j + 1]);
            }
            lemma_root_scan::<T>(s, rest, maximizing, memo1, a2, b2, done.push(c), v1);
            assert(v == search_from::<T>(rest, 1, maximizing, memo1, a2, b2, done.push(c), v1).node.evaluation);
            assert forall|j: int| 0 <= j < kids.len() implies !better(
                minimax_value::<T>(#[trigger] kids[j], 1, !maximizing),
                v,
                maximizing,
            ) by {
                if j > 0 {
                    assert(kids[j] == rest[j - 1]);
                }
            }
            if v != value {
                if v == v1 {
                    assert(v == minimax_value::<T>(kids[0], 1, !maximizing));
                } else {
                    let j = choose|j: int| 0 <= j < rest.len() && v == minimax_value::<T>(#[trigger] rest[j], 1, !maximizing);
                    assert(rest[j] == kids[j + 1]);
                }
            }
        }
    }
}

/// At depth two the search from an empty memo with the full window values the position
/// as plain minimax does, provided no position is both a child and a grandchild of it
/// (so that the memo never hands a leaf value to a child, or a child's value to a leaf).
pub proof fn lemma_pruning_keeps_value_at_depth_two<T: GameState>(s: T::V, maximizing: bool)
    requires
        plies_apart::<T>(s),
    ensures
        search::<T>(s, 2, maximizing, Map::empty(), i64::MIN, i64::MAX).node.evaluation == minimax_value::<T>(
            s,
            2,
            maximizing,
        ),
{
    if !T::terminal(s) {
        let acts = T::actions_of(s);
        let kids = ordered_children::<T>(s, maximizing);
        let memo = Map::<T::V, NodeModel<T::V>>::empty();
        let v = search::<T>(s, 2, maximizing, memo, i64::MIN, i64::MAX).node.evaluation;
        let m = minimax_value::<T>(s, 2, maximizing);
        assert(v == search_from::<T>(kids, 1, maximizing, memo, i64::MIN, i64::MAX, seq![], worst(maximizing)).node.evaluation);
        assert(m == best_of_children::<T>(s, acts, 1, maximizing));
        lemma_ordered_children_match::<T>(s, maximizing);
        lemma_root_scan::<T>(s, kids, maximizing, memo, i64::MIN, i64::MAX, seq![], worst(maximizing));
        if acts.len() > 0 {
            lemma_best_of_children::<T>(s, acts, 1, maximizing);
            let i = choose|i: int|
                0 <= i < acts.len() && m == minimax_value::<T>(T::apply_to(s, #[trigger] acts[i]), 1, !maximizing);
            let ji = choose|j: int| 0 <= j < kids.len() && #[trigger] kids[j] == T::apply_to(s, acts[i]);
            assert(!better(minimax_value::<T>(kids[ji], 1, !maximizing), v, maximizing));
            if v == worst(maximizing) {
                assert(!better(minimax_value::<T>(kids[0], 1, !maximizing), v, maximizing));
                assert(is_child::<T>(s, kids[0]));
                let i0 = choose|i0: int| 0 <= i0 < acts.len() && kids[0] == T::apply_to(s, #[trigger] acts[i0]);
                assert(!better(minimax_value::<T>(T::apply_to(s, acts[i0]), 1, !maximizing), m, maximizing));
            } else {
                let j = choose|j: int| 0 <= j < kids.len() && v == minimax_value::<T>(#[trigger] kids[j], 1, !maximizing);
                assert(is_child::<T>(s, kids[j]));
                let i2 = choose|i2: int| 0 <= i2 < acts.len() && kids[j] == T::apply_to(s, #[trigger] acts[i2]);
                assert(!better(minimax_value::<T>(T::apply_to(s, acts[i2]), 1, !maximizing), m, maximizing));
            }
        }
    }
}

/// Searches `state` to `depth` plies, `maximizing_player` choosing first, within the
/// window `alpha`..`beta`, reusing and filling `explored_states`. Each child that is
/// searched here is stored in the memo under its position.
pub fn minmax<T: GameState>(
    state: T,
    depth: u8,
    maximizing_player: bool,
    explored_states: &mut ExploredStates<T>,
    alpha: i64,
    beta: i64,
) -> (tree: GameTree<T>)
    ensures
        tree.state@ == state@,
        node_of(tree) == search::<T>(state@, depth as nat, maximizing_player, old(explored_states).view(), alpha, beta).node,
        final(explored_states).view() == search::<T>(
            state@,
            depth as nat,
            maximizing_player,
            old(explored_states).view(),
            alpha,
            beta,
        ).memo,
    decreases depth,
{
    let mut tree = GameTree {
        state,
        children: Vec::new(),
        evaluation: if maximizing_player {
            i64::MIN
        } else {
            i64::MAX
        },
    };
    if depth == 0 || tree.state.is_terminal() {
        tree.evaluation = match tree.state.evaluate() {
            Some(v) => v,
            None => 0,
        };
        assert(states_view(tree.children@) =~= Seq::<T::V>::empty());
        return tree;
    }
    let ghost s = tree.state@;
    proof {
        tree.state.lemma_valid();
        T::lemma_actions_applicable(s);
    }
    let actions = tree.state.get_possible_actions();
    let mut next_states: Vec<(T, i64)> = Vec::new();
    let mut i: usize = 0;
    while i < actions.len()
        invariant
            i <= actions@.len(),
            actions@.map_values(|a: T::Action| a@) == T::actions_of(s),
            tree.state@ == s,
            forall|k: int| 0 <= k < T::actions_of(s).len() ==> T::can_apply(s, #[trigger] T::actions_of(s)[k]),
            pairs_view(next_states@) == successors::<T>(s).take(i as int),
        decreases actions@.len() - i,
    {
        assert(actions@.map_values(|a: T::Action| a@)[i as int] == actions@[i as int]@);
        let st = tree.state.apply_action(&actions[i]);
        let e = match st.evaluate() {
            Some(v) => v,
            None => 0,
        };
        let ghost before = next_states@;
        next_states.push((st, e));
        assert(pairs_view(next_states@) =~= pairs_view(before).push((st@, e)));
        assert(successors::<T>(s).take(i + 1) =~= successors::<T>(s).take(i as int).push(successors::<T>(s)[i as int]));
        i += 1;
    }
    assert(successors::<T>(s).take(i as int) =~= successors::<T>(s));
    let ordered = order_by_score(&next_states, maximizing_player);
    let ghost kids = ordered_children::<T>(s, maximizing_player);
    let ghost d: nat = (depth - 1) as nat;
    let ghost target = search_from::<T>(
        kids,
        d,
        maximizing_player,
        old(explored_states).view(),
        alpha,
        beta,
        seq![],
        worst(maximizing_player),
    );
    assert(search::<T>(s, depth as nat, maximizing_player, old(explored_states).view(), alpha, beta) == target);
    assert(kids.len() == ordered@.len());
    assert forall|k: int| 0 <= k < kids.len() implies #[trigger] kids[k] == ordered@[k].0@ by {
        assert(pairs_view(ordered@)[k] == (ordered@[k].0@, ordered@[k].1));
    }
    let mut alpha = alpha;
    let mut beta = beta;
    let mut stop = false;
    let mut j: usize = 0;
    assert(kids.skip(0) =~= kids);
    assert(states_view(tree.children@) =~= Seq::<T::V>::empty());
    while j < ordered.len() && !stop
        invariant
            j <= ordered@.len(),
            kids.len() == ordered@.len(),
            forall|k: int| 0 <= k < kids.len() ==> #[trigger] kids[k] == ordered@[k].0@,
            tree.state@ == s,
            depth > 0,
            d == depth - 1,
            stop ==> target == (SearchOutcome { node: node_of(tree), memo: explored_states.view() }),
            !stop ==> target == search_from::<T>(
                kids.skip(j as int),
                d,
                maximizing_player,
                explored_states.view(),
                alpha,
                beta,
                states_view(tree.children@),
                tree.evaluation,
            ),
        decreases ordered@.len() - j,
    {
        let ghost memo0 = explored_states.view();
        let ghost done0 = states_view(tree.children@);
        let ghost rest = kids.skip(j as int);
        assert(rest[0] == kids[j as int]);
        assert(rest.drop_first() =~= kids.skip(j + 1));
        let new_state = ordered[j].0.copy_position();
        let child_value: i64;
        let ghost children0 = tree.children@;
        match explored_states.get(&new_state) {
            Some(t) => {
                child_value = t.evaluation;
                tree.children.push(new_state);
            },
            None => {
                let child_tree = minmax(new_state, depth - 1, !maximizing_player, explored_states, alpha, beta);
                tree.children.push(child_tree.state.copy_position());
                child_value = child_tree.evaluation;
                explored_states.insert(child_tree);
            },
        }
        assert(states_view(tree.children@) =~= done0.push(kids[j as int]));
        tree.evaluation = if maximizing_player {
            if tree.evaluation >= child_value {
                tree.evaluation
            } else {
                child_value
            }
        } else {
            if tree.evaluation <= child_value {
                tree.evaluation
            } else {
                child_value
            }
        };
        if (tree.evaluation >= beta && maximizing_player) || (tree.evaluation <= alpha && !maximizing_player) {
            stop = true;
        } else if maximizing_player {
            if tree.evaluation > alpha {
                alpha = tree.evaluation;
            }
        } else {
            if tree.evaluation < beta {
                beta = tree.evaluation;
            }
        }
        j += 1;
    }
    proof {
        if !stop {
            assert(kids.skip(j as int) =~= Seq::<T::V>::empty());
        }
    }
    tree
}

pub proof fn lemma_best_from_in_range<V>(children: Seq<V>, memo: Map<V, NodeModel<V>>, maximizing: bool)
    ensures
        best_from(children, memo, maximizing) matches Some(b) ==> 0 <= b.0 < children.len(),
    decreases children.len(),
{
    if children.len() > 0 {
        lemma_best_from_in_range(children.drop_last(), memo, maximizing);
    }
}

/// Searches `state` from an empty memo with the full window and picks the move to play:
/// the position of the first legal action that leads to the best child, with the
/// search's evaluation. No action is picked when the search stored no child.
pub fn choose_action<T: GameState>(state: &T, depth: u8, maximizing_player: bool) -> (r: (Option<usize>, i64))
    ensures
        ({
            let o = search::<T>(state@, depth as nat, maximizing_player, Map::empty(), i64::MIN, i64::MAX);
            let acts = T::actions_of(state@);
            &&& r.1 == o.node.evaluation
            &&& best_from(o.node.children, o.memo, maximizing_player) is None ==> r.0 is None
            &&& best_from(o.node.children, o.memo, maximizing_player) matches Some(b) ==> {
                &&& r.0 matches Some(i) ==> i < acts.len() && T::apply_to(state@, acts[i as int]) == o.node.children[b.0]
                    && forall|j: int| 0 <= j < i ==> T::apply_to(state@, #[trigger] acts[j]) != o.node.children[b.0]
                &&& r.0 is None ==> forall|j: int|
                    0 <= j < acts.len() ==> T::apply_to(state@, #[trigger] acts[j]) != o.node.children[b.0]
            }
        }),
{
    let ghost o = search::<T>(state@, depth as nat, maximizing_player, Map::empty(), i64::MIN, i64::MAX);
    let mut explored_states: ExploredStates<T> = ExploredStates::new();
    let tree = minmax(state.copy_position(), depth, maximizing_player, &mut explored_states, i64::MIN, i64::MAX);
    let ghost acts = T::actions_of(state@);
    proof {
        lemma_best_from_in_range(o.node.children, o.memo, maximizing_player);
    }
    assert(states_view(tree.children@) == o.node.children);
    match tree.best_child(maximizing_player, &explored_states) {
        None => {
            assert(best_from(o.node.children, o.memo, maximizing_player) is None);
            (None, tree.evaluation)
        },
        Some(best) => {
            let ghost b = best_from(o.node.children, o.memo, maximizing_player)->0;
            assert(states_view(tree.children@)[b.0] == tree.children@[b.0]@);
            assert(best@ == o.node.children[b.0]);
            proof {
                if depth == 0 || T::terminal(state@) {
                    assert(o.node.children.len() == 0);
                    assert(best_from(o.node.children, o.memo, maximizing_player) is None);
                }
                state.lemma_valid();
                T::lemma_actions_applicable(state@);
            }
            let actions = state.get_possible_actions();
            let mut i: usize = 0;
            let mut found: Option<usize> = None;
            while i < actions.len() && found.is_none()
                invariant
                    i <= actions@.len(),
                    actions@.map_values(|a: T::Action| a@) == acts,
                    acts == T::actions_of(state@),
                    acts.len() == actions@.len(),
                    forall|k: int| 0 <= k < acts.len() ==> T::can_apply(state@, #[trigger] acts[k]),
                    found is None ==> forall|j: int| 0 <= j < i ==> T::apply_to(state@, #[trigger] acts[j]) != best@,
                    found matches Some(k) ==> k < acts.len() && T::apply_to(state@, acts[k as int]) == best@ && forall|j: int|
                        0 <= j < k ==> T::apply_to(state@, #[trigger] acts[j]) != best@,
                decreases actions@.len() - i,
            {
                assert(acts[i as int] == actions@[i as int]@);
                let next = state.apply_action(&actions[i]);
                if next.same_position(best) {
                    found = Some(i);
                }
                i += 1;
            }
            (found, tree.evaluation)
        },
    }
}

} // verus!
