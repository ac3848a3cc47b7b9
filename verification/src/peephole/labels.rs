//! Tables of the numbered labels of a function and of the branches to them.

use vstd::prelude::*;

use super::helpers;
use super::helpers::{body_of, jump_label_number, label_table_size, parse_label_number};
use super::types;
use super::types::{Code, LineInfo, LineKind, LineStore};

verus! {

/// Line `i` is the label with the number `n`.
pub open spec fn is_label(c: Code, i: int, n: u32) -> bool {
    c.kind(i) is Label && helpers::label_number(c.body(i)) == Some(n)
}

/// The last of the first `k` lines that is the label with the number `n`.
pub open spec fn label_line(c: Code, n: u32, k: int) -> Option<int>
    decreases k,
{
    if k <= 0 {
        None
    } else if is_label(c, k - 1, n) {
        Some(k - 1)
    } else {
        label_line(c, n, k - 1)
    }
}

/// The line of each numbered label.
pub open spec fn label_map(c: Code) -> Map<u32, int> {
    Map::new(
        |n: u32| label_line(c, n, c.len()) is Some,
        |n: u32| label_line(c, n, c.len())->0,
    )
}

/// The numbered labels among the first `k` lines, with their lines.
pub open spec fn numbered_labels(c: Code, k: int) -> Seq<(u32, usize)>
    decreases k,
{
    if k <= 0 {
        Seq::empty()
    } else if c.kind(k - 1) is Label && helpers::label_number(c.body(k - 1)) is Some {
        numbered_labels(c, k - 1).push(
            (helpers::label_number(c.body(k - 1))->0, (k - 1) as usize),
        )
    } else {
        numbered_labels(c, k - 1)
    }
}

/// Line `i` is a jump to the label with the number `n`.
pub open spec fn is_branch_to(c: Code, i: int, n: u32) -> bool {
    helpers::is_direct_jump(c, i) && helpers::jump_number(c.body(i)) == Some(n)
}

/// Number of jumps to the label with the number `n` among the first `k` lines.
pub open spec fn branch_count(c: Code, n: u32, k: int) -> nat
    decreases k,
{
    if k <= 0 {
        0
    } else {
        branch_count(c, n, k - 1) + if is_branch_to(c, k - 1, n) {
            1nat
        } else {
            0nat
        }
    }
}

/// The first of the first `k` lines that is a conditional jump to the label with
/// the number `n`.
pub open spec fn first_cond_branch(c: Code, n: u32, k: int) -> Option<int>
    decreases k,
{
    if k <= 0 {
        None
    } else if first_cond_branch(c, n, k - 1) is Some {
        first_cond_branch(c, n, k - 1)
    } else if is_branch_to(c, k - 1, n) && c.kind(k - 1) is CondJmp {
        Some(k - 1)
    } else {
        None
    }
}

/// The conditional jump to the label with the number `n`, if nothing else jumps
/// there.
pub open spec fn sole_cond_branch(c: Code, n: u32) -> Option<int> {
    if branch_count(c, n, c.len()) == 1 {
        first_cond_branch(c, n, c.len())
    } else {
        None
    }
}

/// The sole conditional jump to each numbered label that has one.
pub open spec fn branch_map(c: Code) -> Map<u32, int> {
    Map::new(
        |n: u32| helpers::some_label_from(c, n) && sole_cond_branch(c, n) is Some,
        |n: u32| sole_cond_branch(c, n)->0,
    )
}

/// A label's line comes before the end.
pub proof fn lemma_label_line(c: Code, n: u32, k: int)
    ensures
        match label_line(c, n, k) {
            Some(i) => 0 <= i < k && is_label(c, i, n),
            None => forall|i: int| 0 <= i < k ==> !is_label(c, i, n),
        },
    decreases k,
{
    if k > 0 && !is_label(c, k - 1, n) {
        lemma_label_line(c, n, k - 1);
    }
}

/// Where the numbered labels of a function are.
pub struct LabelTable {
    lines: Vec<Option<usize>>,
}

impl View for LabelTable {
    type V = Map<u32, int>;

    closed spec fn view(&self) -> Map<u32, int> {
        Map::new(
            |n: u32| n < self.lines@.len() && self.lines@[n as int] is Some,
            |n: u32| self.lines@[n as int]->0 as int,
        )
    }
}

impl LabelTable {
    /// The line of the label with the number `n`.
    pub fn line_of(&self, n: u32) -> (r: Option<usize>)
        ensures
            match r {
                Some(i) => self@.contains_key(n) && self@[n] == i,
                None => !self@.contains_key(n),
            },
    {
        if (n as usize) < self.lines.len() {
            self.lines[n as usize]
        } else {
            None
        }
    }

    /// The labels of these lines.
    pub fn build(store: &LineStore, infos: &[LineInfo]) -> (r: LabelTable)
        requires
            types::code(*store, infos@).wf(),
        ensures
            r@ == label_map(types::code(*store, infos@)),
            r.size() <= u32::MAX,
            forall|n: u32| #[trigger] r@.contains_key(n) ==> 0 <= r@[n] < infos@.len() && n < r.size(),
    {
        let ghost c = types::code(*store, infos@);
        let size = label_table_size(store, infos);
        let mut lines: Vec<Option<usize>> = Vec::new();
        while lines.len() < size
            invariant
                lines@.len() <= size,
                forall|k: int| 0 <= k < lines@.len() ==> (#[trigger] lines@[k]) is None,
            decreases size - lines@.len(),
        {
            lines.push(None);
        }
        let mut i: usize = 0;
        while i < infos.len()
            invariant
                c == types::code(*store, infos@),
                c.wf(),
                i <= infos@.len(),
                lines@.len() == size <= u32::MAX,
                forall|n: u32| (n < size) == #[trigger] helpers::some_label_from(c, n),
                forall|n: u32|
                    n < size ==> same_line(
                        #[trigger] lines@[n as int],
                        label_line(c, n, i as int),
                    ),
            decreases infos@.len() - i,
        {
            if matches!(infos[i].kind, LineKind::Label) {
                if let Some(n) = parse_label_number(body_of(store, infos, i)) {
                    assert(helpers::some_label_from(c, n)) by {
                        assert(c.infos[i as int] == infos@[i as int]);
                    }
                    lines[n as usize] = Some(i);
                }
            }
            i += 1;
        }
        let r = LabelTable { lines };
        proof {
            assert forall|n: u32|
                #[trigger] r@.contains_key(n) == label_map(c).contains_key(n) && (r@.contains_key(n)
                    ==> r@[n] == label_map(c)[n] && 0 <= r@[n] < infos@.len()) by {
                lemma_label_line(c, n, c.len());
                if n < size {
                    assert(same_line(lines@[n as int], label_line(c, n, c.len())));
                } else {
                    assert(!helpers::some_label_from(c, n));
                    if label_line(c, n, c.len()) is Some {
                        let k = label_line(c, n, c.len())->0;
                        assert(c.infos[k] == infos@[k]);
                        assert(helpers::some_label_from(c, n));
                    }
                }
            }
            assert(r@ =~= label_map(c));
        }
        r
    }

    /// One more than the greatest label number, or 0.
    pub closed spec fn size(&self) -> nat {
        self.lines@.len()
    }

    /// One more than the greatest label number, or 0.
    pub fn len(&self) -> (r: usize)
        ensures
            r == self.size(),
    {
        self.lines.len()
    }
}

/// The same line, or none.
pub open spec fn same_line(a: Option<usize>, b: Option<int>) -> bool {
    match (a, b) {
        (Some(x), Some(y)) => x == y,
        (None, None) => true,
        _ => false,
    }
}

/// The branches to each numbered label.
pub struct BranchTable {
    counts: Vec<usize>,
    conds: Vec<Option<usize>>,
}

impl View for BranchTable {
    type V = Map<u32, int>;

    closed spec fn view(&self) -> Map<u32, int> {
        Map::new(
            |n: u32|
                n < self.counts@.len() && n < self.conds@.len() && self.counts@[n as int] == 1
                    && self.conds@[n as int] is Some,
            |n: u32| self.conds@[n as int]->0 as int,
        )
    }
}

impl BranchTable {
    /// The branches of these lines.
    pub fn build(store: &LineStore, infos: &[LineInfo]) -> (r: BranchTable)
        requires
            types::code(*store, infos@).wf(),
        ensures
            r@ == branch_map(types::code(*store, infos@)),
            forall|n: u32| #[trigger] r@.contains_key(n) ==> 0 <= r@[n] < infos@.len(),
    {
        let ghost c = types::code(*store, infos@);
        let size = label_table_size(store, infos);
        let mut counts: Vec<usize> = Vec::new();
        let mut conds: Vec<Option<usize>> = Vec::new();
        while counts.len() < size
            invariant
                counts@.len() == conds@.len() <= size,
                forall|k: int| 0 <= k < counts@.len() ==> #[trigger] counts@[k] == 0,
                forall|k: int| 0 <= k < counts@.len() ==> (#[trigger] conds@[k]) is None,
            decreases size - counts@.len(),
        {
            counts.push(0);
            conds.push(None);
        }
        let mut i: usize = 0;
        while i < infos.len()
            invariant
                c == types::code(*store, infos@),
                c.wf(),
                i <= infos@.len(),
                counts@.len() == conds@.len() == size <= u32::MAX,
                forall|n: u32| (n < size) == #[trigger] helpers::some_label_from(c, n),
                forall|n: u32|
                    n < size ==> #[trigger] counts@[n as int] == branch_count(c, n, i as int),
                forall|n: u32| n < size ==> #[trigger] counts@[n as int] <= i,
                forall|n: u32|
                    n < size ==> same_line(
                        #[trigger] conds@[n as int],
                        first_cond_branch(c, n, i as int),
                    ),
                forall|n: u32|
                    n < size && (#[trigger] conds@[n as int]) is Some ==> conds@[n as int]->0 < i,
            decreases infos@.len() - i,
        {
            let is_cond = matches!(infos[i].kind, LineKind::CondJmp);
            if is_cond || matches!(infos[i].kind, LineKind::Jmp) {
                if let Some(n) = jump_label_number(body_of(store, infos, i)) {
                    if (n as usize) < size {
                        counts[n as usize] = counts[n as usize] + 1;
                        if is_cond && conds[n as usize].is_none() {
                            conds[n as usize] = Some(i);
                        }
                    }
                }
            }
            i += 1;
        }
        let r = BranchTable { counts, conds };
        proof {
            assert forall|n: u32|
                #[trigger] r@.contains_key(n) == branch_map(c).contains_key(n) && (r@.contains_key(
                    n,
                ) ==> r@[n] == branch_map(c)[n] && 0 <= r@[n] < infos@.len()) by {
                assert((n < size) == helpers::some_label_from(c, n));
                if n < size {
                    assert(counts@[n as int] == branch_count(c, n, c.len()));
                    assert(same_line(conds@[n as int], first_cond_branch(c, n, c.len())));
                }
            }
            assert(r@ =~= branch_map(c));
        }
        r
    }

    /// The conditional jump to the label with the number `n`, if nothing else
    /// jumps there.
    pub fn sole_branch(&self, n: u32) -> (r: Option<usize>)
        ensures
            match r {
                Some(i) => self@.contains_key(n) && self@[n] == i,
                None => !self@.contains_key(n),
            },
    {
        let n = n as usize;
        if n < self.counts.len() && n < self.conds.len() && self.counts[n] == 1 {
            self.conds[n]
        } else {
            None
        }
    }
}

/// The numbered labels, with their lines.
pub fn collect_numbered_labels(store: &LineStore, infos: &[LineInfo]) -> (r: Vec<(u32, usize)>)
    requires
        types::code(*store, infos@).wf(),
    ensures
        r@ == numbered_labels(types::code(*store, infos@), infos@.len() as int),
        forall|k: int| 0 <= k < r@.len() ==> (#[trigger] r@[k]).1 < infos@.len(),
{
    let ghost c = types::code(*store, infos@);
    let mut out: Vec<(u32, usize)> = Vec::new();
    let mut i: usize = 0;
    while i < infos.len()
        invariant
            c == types::code(*store, infos@),
            c.wf(),
            i <= infos@.len(),
            out@ == numbered_labels(c, i as int),
            forall|k: int| 0 <= k < out@.len() ==> (#[trigger] out@[k]).1 < infos@.len(),
        decreases infos@.len() - i,
    {
        assert(c.infos[i as int] == infos@[i as int]);
        if matches!(infos[i].kind, LineKind::Label) {
            if let Some(n) = parse_label_number(body_of(store, infos, i)) {
                out.push((n, i));
            }
        }
        i += 1;
    }
    out
}

} // verus!
