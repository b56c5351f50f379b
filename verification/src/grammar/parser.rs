use vstd::prelude::*;

use crate::error::LlkError;
use crate::grammar::assert_term_string;
use crate::grammar::lemma_first_nonterminal_input;
use crate::grammar::GrammarModel;
use crate::grammar::LlkGrammar;
use crate::grammar::LLK_EOF;
use crate::grammar::tree::leaves_of;
use crate::grammar::tree::lemma_leaves_push;
use crate::grammar::tree::lemma_preorder_push;
use crate::grammar::tree::preorder_of;
use crate::grammar::tree::tree_preorder;
use crate::grammar::tree::tree_leaves;
use crate::grammar::tree::tree_sym;
use crate::grammar::tree::tree_wf;
use crate::grammar::tree::LlkTree;
use crate::grammar::tree::LlkTreeNode;
use crate::util::chars_set;
use crate::util::copy_chars;
use crate::util::eq_chars;
use crate::util::sub_chars;
use crate::util::to_chars;

verus! {

/// One entry of the parse table: on non-terminal `nterm` with the
/// given lookahead window, the parser replaces the non-terminal by
/// `derivation`, the right-hand side of production `production_id`.
#[derive(Debug)]
pub struct LlkLutEntry {
    pub nterm: char,
    pub lookahead: Vec<char>,
    pub derivation: Vec<char>,
    pub production_id: usize,
}

/// The parse table: a list of entries with mutually distinct
/// (non-terminal, lookahead) keys for a validated grammar.
pub type LlkLut = Vec<LlkLutEntry>;

/// Soundness and completeness of a parse table for a grammar: every
/// entry names one of the grammar's productions, keyed by a member of
/// its CHOICE set and carrying its derivation; and every member of
/// every CHOICE set has an entry.
pub open spec fn lut_wf(lut: Seq<LlkLutEntry>, g: GrammarModel) -> bool {
    &&& forall|e: int|
        0 <= e < lut.len() ==> {
            let id = (#[trigger] lut[e]).production_id as int;
            &&& 0 <= id < g.num()
            &&& g.lhs(id) == lut[e].nterm
            &&& lut[e].derivation@ == g.rhs(id)
            &&& g.choice_set(id).contains(lut[e].lookahead@)
        }
    &&& forall|id: int, w: Seq<char>|
        0 <= id < g.num() && #[trigger] g.choice_set(id).contains(w) ==> exists|e: int|
            0 <= e < lut.len() && (#[trigger] lut[e]).production_id == id && lut[e].lookahead@ == w
}

/// In a table for a validated grammar the keys are unambiguous: two
/// entries sharing a non-terminal and a lookahead window name the
/// same production, by the LL(k) disjointness of CHOICE sets. The
/// table-driven parser is therefore a function of its input.
pub proof fn lemma_lut_keys_unambiguous(
    lut: Seq<LlkLutEntry>,
    g: GrammarModel,
    e1: int,
    e2: int,
)
    requires
        g.wf(),
        lut_wf(lut, g),
        0 <= e1 < lut.len(),
        0 <= e2 < lut.len(),
        lut[e1].nterm == lut[e2].nterm,
        lut[e1].lookahead@ == lut[e2].lookahead@,
    ensures
        lut[e1].production_id == lut[e2].production_id,
{
    let id1 = lut[e1].production_id as int;
    let id2 = lut[e2].production_id as int;
    if id1 != id2 {
        let lo = if id1 < id2 {
            id1
        } else {
            id2
        };
        let hi = if id1 < id2 {
            id2
        } else {
            id1
        };
        assert(g.lhs(lo) == g.lhs(hi));
        assert(g.choice_set(lo).disjoint(g.choice_set(hi)));
        assert(g.choice_set(lo).contains(lut[e1].lookahead@));
        assert(false);
    }
}

/// The index of the first table entry at or after `e` whose key is
/// (`sym`, `w`), or absence when no entry from `e` on matches.
pub open spec fn lut_find(lut: Seq<LlkLutEntry>, sym: char, w: Seq<char>, e: int) -> Option<int>
    decreases lut.len() - e,
{
    if e < 0 || e >= lut.len() {
        None
    } else if lut[e].nterm == sym && lut[e].lookahead@ == w {
        Some(e)
    } else {
        lut_find(lut, sym, w, e + 1)
    }
}

/// A scan position with no key match in `[e0, p)` and a match (or the
/// table's end) at `p` determines the lookup result.
proof fn lemma_lut_find_at(lut: Seq<LlkLutEntry>, sym: char, w: Seq<char>, p: int, e0: int)
    requires
        0 <= e0 <= p <= lut.len(),
        forall|e: int|
            e0 <= e < p ==> !((#[trigger] lut[e]).nterm == sym && lut[e].lookahead@ == w),
        p < lut.len() ==> lut[p].nterm == sym && lut[p].lookahead@ == w,
    ensures
        lut_find(lut, sym, w, e0) == if p < lut.len() {
            Some(p)
        } else {
            None::<int>
        },
    decreases p - e0,
{
    if e0 < p {
        lemma_lut_find_at(lut, sym, w, p, e0 + 1);
    }
}

/// The result of the table-driven expansion of `sym` against
/// `target` from `pos`: the position after the consumed input and the
/// traversal of the derivation subtree built, or absence when the
/// expansion fails — the lookup misses, a terminal does not match the
/// input, or the depth budget runs out. This is the algorithm the
/// parser executes, stated over the grammar model and the table.
pub open spec fn spec_expand(
    g: GrammarModel,
    lut: Seq<LlkLutEntry>,
    target: Seq<char>,
    sym: char,
    pos: int,
    fuel: nat,
) -> Option<(int, Seq<(char, Option<usize>)>)>
    decreases fuel, 1int, 0int,
{
    if fuel == 0 {
        None
    } else {
        let remaining = target.len() - pos;
        let wlen = if g.k as int <= remaining {
            g.k as int
        } else {
            remaining
        };
        let w = target.subrange(pos, pos + wlen);
        match lut_find(lut, sym, w, 0) {
            None => None,
            Some(e) => match spec_expand_seq(g, lut, target, lut[e].derivation@, 0, pos, fuel) {
                None => None,
                Some(p) => Some(
                    (p.0, seq![(sym, Some(lut[e].production_id))] + p.1),
                ),
            },
        }
    }
}

/// The position and concatenated child traversals after matching the
/// symbols of `rhs` from index `j` on, starting at `pos`: a
/// non-terminal is expanded through the table, a terminal must equal
/// the input character under the cursor.
pub open spec fn spec_expand_seq(
    g: GrammarModel,
    lut: Seq<LlkLutEntry>,
    target: Seq<char>,
    rhs: Seq<char>,
    j: int,
    pos: int,
    fuel: nat,
) -> Option<(int, Seq<(char, Option<usize>)>)>
    decreases fuel, 0int, rhs.len() - j,
{
    if j < 0 || j >= rhs.len() {
        Some((pos, Seq::empty()))
    } else if fuel == 0 {
        None
    } else {
        let x = rhs[j];
        if g.is_nterm(x) {
            match spec_expand(g, lut, target, x, pos, (fuel - 1) as nat) {
                None => None,
                Some(p2) => match spec_expand_seq(g, lut, target, rhs, j + 1, p2.0, fuel) {
                    None => None,
                    Some(p3) => Some((p3.0, p2.1 + p3.1)),
                },
            }
        } else {
            if pos < target.len() - 1 && target[pos] == x {
                match spec_expand_seq(g, lut, target, rhs, j + 1, pos + 1, fuel) {
                    None => None,
                    Some(p3) => Some((p3.0, seq![(x, None::<usize>)] + p3.1)),
                }
            } else {
                None
            }
        }
    }
}

/// A string is derivable when some well-formed derivation tree rooted
/// at the start symbol reads back as it.
pub open spec fn derivable(g: GrammarModel, s: Seq<char>) -> bool {
    exists|t: LlkTree| tree_wf(t, g) && tree_sym(t) == g.start && #[trigger] tree_leaves(t) == s
}

/// Rejection completeness: a successful parse hands back a witness
/// that the input is derivable, so on any input that is not derivable
/// the parser can only fail. Combined with `LlkParser::parse`'s
/// contract this says a string underivable from the start symbol is
/// answered with a failed derivation.
pub proof fn lemma_rejection_completeness(
    g: GrammarModel,
    s: Seq<char>,
    r: Result<LlkTree, LlkError>,
)
    requires
        !derivable(g, s),
        r matches Ok(t) ==> tree_wf(t, g) && tree_sym(t) == g.start && tree_leaves(t) == s,
    ensures
        r is Err,
{
    if r is Ok {
        let t = r->Ok_0;
        assert(tree_leaves(t) == s);
        assert(derivable(g, s));
    }
}

/// A fresh leaf for a consumed terminal.
fn make_leaf(c: char) -> (r: LlkTree)
    ensures
        r == LlkTree::Leaf(c),
{
    LlkTree::Leaf(c)
}

/// The table-driven predictive parser: a validated grammar together
/// with its compiled parse table.
pub struct LlkParser {
    grammar: LlkGrammar,
    lut: LlkLut,
}

impl LlkParser {
    /// The grammar this parser runs.
    pub closed spec fn gram(&self) -> GrammarModel {
        self.grammar@
    }

    /// The parser is bound to a validated grammar and holds a sound
    /// and complete parse table for it.
    pub closed spec fn wf(&self) -> bool {
        &&& self.grammar@.wf()
        &&& lut_wf(self.lut@, self.grammar@)
    }

    /// The table-driven expansion of the start symbol against the
    /// input with the end marker appended, at the depth budget the
    /// parser runs with: the consumed length and the traversal of the
    /// derivation tree, or absence when the expansion fails.
    pub closed spec fn expansion(&self, s: Seq<char>) -> Option<(int, Seq<(char, Option<usize>)>)> {
        spec_expand(
            self.gram(),
            self.lut@,
            s.push(LLK_EOF),
            self.gram().start,
            0,
            usize::MAX as nat,
        )
    }

    /// The parser's acceptance predicate: the input consists of
    /// terminals and the table-driven expansion of the start symbol
    /// consumes exactly the input. `parse` succeeds on exactly these
    /// inputs.
    pub closed spec fn accepts(&self, s: Seq<char>) -> bool {
        &&& self.gram().term_str_ok(s)
        &&& self.expansion(s) matches Some(p) && p.0 == s.len() as int
    }

    /// Compiles the parse table of a grammar: one entry for every
    /// member of every production's CHOICE set.
    pub fn create_lut(grammar: &LlkGrammar) -> (r: LlkLut)
        ensures
            lut_wf(r@, grammar@),
    {
        let mut lut: Vec<LlkLutEntry> = Vec::new();
        let n = grammar.num_productions();
        let mut id: usize = 0;
        while id < n
            invariant
                0 <= id <= n,
                n == grammar@.num(),
                forall|e: int|
                    0 <= e < lut@.len() ==> {
                        let pid = (#[trigger] lut@[e]).production_id as int;
                        &&& 0 <= pid < grammar@.num()
                        &&& grammar@.lhs(pid) == lut@[e].nterm
                        &&& lut@[e].derivation@ == grammar@.rhs(pid)
                        &&& grammar@.choice_set(pid).contains(lut@[e].lookahead@)
                    },
                forall|id2: int, w: Seq<char>|
                    0 <= id2 < id && #[trigger] grammar@.choice_set(id2).contains(w) ==> exists|
                        e: int,
                    |
                        0 <= e < lut@.len() && (#[trigger] lut@[e]).production_id == id2
                            && lut@[e].lookahead@ == w,
            decreases n - id,
        {
            let cs = grammar.choise(id);
            let rhs = grammar.rhs_vec(id);
            let lh = grammar.lhs_at(id);
            let mut j: usize = 0;
            while j < cs.len()
                invariant
                    0 <= j <= cs@.len(),
                    0 <= id < n,
                    n == grammar@.num(),
                    chars_set(cs@) == grammar@.choice_set(id as int),
                    rhs@ == grammar@.rhs(id as int),
                    lh == grammar@.lhs(id as int),
                    forall|e: int|
                        0 <= e < lut@.len() ==> {
                            let pid = (#[trigger] lut@[e]).production_id as int;
                            &&& 0 <= pid < grammar@.num()
                            &&& grammar@.lhs(pid) == lut@[e].nterm
                            &&& lut@[e].derivation@ == grammar@.rhs(pid)
                            &&& grammar@.choice_set(pid).contains(lut@[e].lookahead@)
                        },
                    forall|id2: int, w: Seq<char>|
                        0 <= id2 < id && #[trigger] grammar@.choice_set(id2).contains(w) ==> exists|
                            e: int,
                        |
                            0 <= e < lut@.len() && (#[trigger] lut@[e]).production_id == id2
                                && lut@[e].lookahead@ == w,
                    forall|j2: int|
                        0 <= j2 < j ==> exists|e: int|
                            0 <= e < lut@.len() && (#[trigger] lut@[e]).production_id == id
                                && lut@[e].lookahead@ == #[trigger] cs@[j2]@,
                decreases cs@.len() - j,
            {
                let entry = LlkLutEntry {
                    nterm: lh,
                    lookahead: copy_chars(&cs[j]),
                    derivation: copy_chars(&rhs),
                    production_id: id,
                };
                proof {
                    assert(chars_set(cs@).contains(cs@[j as int]@));
                }
                let ghost pre = lut@;
                lut.push(entry);
                proof {
                    assert(lut@[lut@.len() - 1].production_id == id && lut@[lut@.len()
                        - 1].lookahead@ == cs@[j as int]@);
                    assert forall|j2: int| 0 <= j2 < j + 1 implies exists|e: int|
                        0 <= e < lut@.len() && (#[trigger] lut@[e]).production_id == id
                            && lut@[e].lookahead@ == #[trigger] cs@[j2]@ by {
                        if j2 < j {
                            let e = choose|e: int|
                                0 <= e < pre.len() && (#[trigger] pre[e]).production_id == id
                                    && pre[e].lookahead@ == cs@[j2]@;
                            assert(lut@[e].production_id == id && lut@[e].lookahead@ == cs@[j2]@);
                        } else {
                            assert(lut@[lut@.len() - 1].production_id == id && lut@[lut@.len()
                                - 1].lookahead@ == cs@[j2]@);
                        }
                    }
                    assert forall|id2: int, w: Seq<char>|
                        0 <= id2 < id && #[trigger] grammar@.choice_set(id2).contains(
                            w,
                        ) implies exists|e: int|
                        0 <= e < lut@.len() && (#[trigger] lut@[e]).production_id == id2
                            && lut@[e].lookahead@ == w by {
                        let e = choose|e: int|
                            0 <= e < pre.len() && (#[trigger] pre[e]).production_id == id2
                                && pre[e].lookahead@ == w;
                        assert(lut@[e].production_id == id2 && lut@[e].lookahead@ == w);
                    }
                }
                j = j + 1;
            }
            proof {
                assert forall|id2: int, w: Seq<char>|
                    0 <= id2 < id + 1 && #[trigger] grammar@.choice_set(id2).contains(
                        w,
                    ) implies exists|e: int|
                    0 <= e < lut@.len() && (#[trigger] lut@[e]).production_id == id2
                        && lut@[e].lookahead@ == w by {
                    if id2 == id {
                        assert(chars_set(cs@).contains(w));
                        let j2 = choose|j2: int| 0 <= j2 < cs@.len() && #[trigger] cs@[j2]@ == w;
                    }
                }
            }
            id = id + 1;
        }
        lut
    }

    /// A borrow of the parser's grammar.
    pub fn grammar_ref(&self) -> (r: &LlkGrammar)
        ensures
            r@ == self.gram(),
            self.wf() ==> r@.wf(),
    {
        &self.grammar
    }

    /// A borrow of the parser's compiled parse table.
    pub fn lut_entries(&self) -> (r: &LlkLut)
        ensures
            self.wf() ==> lut_wf(r@, self.gram()),
    {
        &self.lut
    }

    /// Builds a parser from a validated grammar by compiling its
    /// parse table.
    pub fn new(grammar: LlkGrammar) -> (r: LlkParser)
        requires
            grammar@.wf(),
        ensures
            r.wf(),
            r.gram() == grammar@,
    {
        let lut = LlkParser::create_lut(&grammar);
        LlkParser { grammar, lut }
    }

    /// The index of the first table entry for the given non-terminal
    /// and lookahead window, if any.
    fn lut_lookup(&self, sym: char, window: &Vec<char>) -> (r: Option<usize>)
        ensures
            r matches Some(ix) ==> ix < self.lut@.len() && self.lut@[ix as int].nterm == sym
                && self.lut@[ix as int].lookahead@ == window@,
            lut_find(self.lut@, sym, window@, 0) == (match r {
                Some(ix) => Some(ix as int),
                None => None::<int>,
            }),
    {
        let mut i: usize = 0;
        while i < self.lut.len()
            invariant
                0 <= i <= self.lut@.len(),
                forall|e: int|
                    0 <= e < i ==> !((#[trigger] self.lut@[e]).nterm == sym
                        && self.lut@[e].lookahead@ == window@),
            decreases self.lut@.len() - i,
        {
            if self.lut[i].nterm == sym && eq_chars(&self.lut[i].lookahead, window) {
                proof {
                    lemma_lut_find_at(self.lut@, sym, window@, i as int, 0);
                }
                return Some(i);
            }
            i = i + 1;
        }
        proof {
            lemma_lut_find_at(self.lut@, sym, window@, self.lut@.len() as int, 0);
        }
        None
    }

    /// Expands the non-terminal `sym` against `target` from position
    /// `pos`, returning its derivation subtree and the position after
    /// the consumed input. `target` is the input with the end marker
    /// appended; `fuel` bounds the expansion depth.
    #[verifier::loop_isolation(false)]
    fn parse_nterm(&self, sym: char, target: &Vec<char>, pos: usize, fuel: usize) -> (r: Result<
        (LlkTree, usize),
        LlkError,
    >)
        requires
            self.wf(),
            target@.len() >= 1,
            forall|j: int|
                0 <= j < target@.len() - 1 ==> self.gram().terms.contains(#[trigger] target@[j]),
            pos <= target@.len() - 1,
        ensures
            r matches Ok(p) ==> {
                &&& pos <= p.1 <= target@.len() - 1
                &&& p.0 is Node
                &&& tree_sym(p.0) == sym
                &&& tree_wf(p.0, self.gram())
                &&& tree_leaves(p.0) == target@.subrange(pos as int, p.1 as int)
            },
            r matches Err(e) ==> e is DerivationFailed,
            (r is Ok) == (spec_expand(
                self.gram(),
                self.lut@,
                target@,
                sym,
                pos as int,
                fuel as nat,
            ) is Some),
            r matches Ok(p) ==> spec_expand(
                self.gram(),
                self.lut@,
                target@,
                sym,
                pos as int,
                fuel as nat,
            ) == Some((p.1 as int, tree_preorder(p.0))),
        decreases fuel,
    {
        let ghost mirror = spec_expand(
            self.gram(),
            self.lut@,
            target@,
            sym,
            pos as int,
            fuel as nat,
        );
        if fuel == 0 {
            return Err(LlkError::DerivationFailed("expansion budget exhausted".to_owned()));
        }
        let remaining = target.len() - pos;
        let k = self.grammar.lookahead_len();
        let wlen = if k <= remaining {
            k
        } else {
            remaining
        };
        let window = sub_chars(target, pos, pos + wlen);
        let ix = match self.lut_lookup(sym, &window) {
            None => {
                proof {
                    assert(mirror is None);
                }
                return Err(
                    LlkError::DerivationFailed(
                        "no production for the current lookahead".to_owned(),
                    ),
                );
            },
            Some(ix) => ix,
        };
        let id = self.lut[ix].production_id;
        let rhs = copy_chars(&self.lut[ix].derivation);
        proof {
            assert(0 <= id < self.gram().num());
            assert(self.gram().lhs(id as int) == sym);
            assert(rhs@ == self.gram().rhs(id as int));
            assert(mirror == (match spec_expand_seq(
                self.gram(),
                self.lut@,
                target@,
                rhs@,
                0,
                pos as int,
                fuel as nat,
            ) {
                None => None,
                Some(p) => Some((p.0, seq![(sym, Some(id))] + p.1)),
            }));
        }
        let mut children: Vec<LlkTree> = Vec::new();
        let mut cur = pos;
        proof {
            assert(leaves_of(children@) =~= target@.subrange(pos as int, pos as int));
            assert(preorder_of(children@) =~= Seq::<(char, Option<usize>)>::empty());
            match spec_expand_seq(
                self.gram(),
                self.lut@,
                target@,
                rhs@,
                0,
                pos as int,
                fuel as nat,
            ) {
                None => {},
                Some(p) => {
                    assert(seq![(sym, Some(id))] + (preorder_of(children@) + p.1) =~= seq![
                        (sym, Some(id)),
                    ] + p.1);
                },
            }
        }
        let mut j: usize = 0;
        while j < rhs.len()
            invariant
                self.wf(),
                0 <= j <= rhs@.len(),
                0 <= id < self.gram().num(),
                rhs@ == self.gram().rhs(id as int),
                self.gram().lhs(id as int) == sym,
                target@.len() >= 1,
                forall|j2: int|
                    0 <= j2 < target@.len() - 1 ==> self.gram().terms.contains(
                        #[trigger] target@[j2],
                    ),
                pos <= cur <= target@.len() - 1,
                fuel >= 1,
                children@.len() == j,
                forall|m: int|
                    0 <= m < j ==> tree_sym(#[trigger] children@[m]) == rhs@[m],
                forall|m: int|
                    0 <= m < j ==> ((#[trigger] children@[m]) is Node <==> self.gram().is_nterm(
                        rhs@[m],
                    )),
                forall|m: int| 0 <= m < j ==> tree_wf(#[trigger] children@[m], self.gram()),
                leaves_of(children@) == target@.subrange(pos as int, cur as int),
                mirror == (match spec_expand_seq(
                    self.gram(),
                    self.lut@,
                    target@,
                    rhs@,
                    j as int,
                    cur as int,
                    fuel as nat,
                ) {
                    None => None,
                    Some(p) => Some(
                        (p.0, seq![(sym, Some(id))] + (preorder_of(children@) + p.1)),
                    ),
                }),
            decreases rhs@.len() - j,
        {
            let x = rhs[j];
            proof {
                assert(self.gram().productions_ok());
                assert(self.gram().terms.contains(self.gram().rhs(id as int)[j as int])
                    || self.gram().nterms.contains(self.gram().rhs(id as int)[j as int]));
            }
            if self.grammar.is_nterm(x) {
                let parsed = match self.parse_nterm(x, target, cur, fuel - 1) {
                    Err(e) => {
                        proof {
                            assert(spec_expand(
                                self.gram(),
                                self.lut@,
                                target@,
                                x,
                                cur as int,
                                (fuel - 1) as nat,
                            ) is None);
                            assert(mirror is None);
                        }
                        return Err(e);
                    },
                    Ok(p) => p,
                };
                let ncur = parsed.1;
                proof {
                    lemma_leaves_push(children@, parsed.0);
                    lemma_preorder_push(children@, parsed.0);
                    assert(target@.subrange(pos as int, cur as int) + target@.subrange(
                        cur as int,
                        ncur as int,
                    ) =~= target@.subrange(pos as int, ncur as int));
                    assert(spec_expand(
                        self.gram(),
                        self.lut@,
                        target@,
                        x,
                        cur as int,
                        (fuel - 1) as nat,
                    ) == Some((ncur as int, tree_preorder(parsed.0))));
                    match spec_expand_seq(
                        self.gram(),
                        self.lut@,
                        target@,
                        rhs@,
                        j + 1 as int,
                        ncur as int,
                        fuel as nat,
                    ) {
                        None => {},
                        Some(p3) => {
                            assert(seq![(sym, Some(id))] + (preorder_of(children@) + (tree_preorder(
                                parsed.0,
                            ) + p3.1)) =~= seq![(sym, Some(id))] + ((preorder_of(children@)
                                + tree_preorder(parsed.0)) + p3.1));
                        },
                    }
                }
                children.push(parsed.0);
                cur = ncur;
            } else {
                if cur < target.len() - 1 && target[cur] == x {
                    let newleaf = make_leaf(x);
                    proof {
                        lemma_leaves_push(children@, newleaf);
                        lemma_preorder_push(children@, newleaf);
                        crate::grammar::tree::lemma_leaf_leaves(x);
                        crate::grammar::tree::lemma_leaf_preorder(x);
                        assert(target@.subrange(pos as int, cur as int) + seq![x] =~= target@.subrange(
                            pos as int,
                            cur + 1 as int,
                        ));
                        assert(self.gram().terms.contains(x));
                        match spec_expand_seq(
                            self.gram(),
                            self.lut@,
                            target@,
                            rhs@,
                            j + 1 as int,
                            cur + 1 as int,
                            fuel as nat,
                        ) {
                            None => {},
                            Some(p3) => {
                                assert(seq![(sym, Some(id))] + (preorder_of(children@) + (seq![
                                    (x, None::<usize>),
                                ] + p3.1)) =~= seq![(sym, Some(id))] + ((preorder_of(children@)
                                    + seq![(x, None::<usize>)]) + p3.1));
                            },
                        }
                    }
                    children.push(newleaf);
                    cur = cur + 1;
                } else {
                    proof {
                        assert(mirror is None);
                    }
                    return Err(
                        LlkError::DerivationFailed(
                            "input does not match the expected terminal".to_owned(),
                        ),
                    );
                }
            }
            j = j + 1;
        }
        let node = LlkTree::Node(LlkTreeNode { symbol: sym, production_id: Some(id), children });
        proof {
            assert(tree_wf(node, self.gram()));
            assert(tree_leaves(node) == target@.subrange(pos as int, cur as int));
            assert(seq![(sym, Some(id))] + (preorder_of(node->Node_0.children@) + Seq::<
                (char, Option<usize>),
            >::empty()) =~= tree_preorder(node));
            assert(mirror == Some((cur as int, tree_preorder(node))));
        }
        Ok((node, cur))
    }


    /// Parses an input string of terminals. The parse succeeds if and
    /// only if the input is accepted — all terminals, and the
    /// table-driven expansion of the start symbol consumes exactly
    /// the input — so repeated calls agree. On success the returned
    /// derivation tree is rooted at the start symbol, is well-formed
    /// against the grammar, and its terminal leaves read back exactly
    /// as the input. A character outside the terminal alphabet is
    /// rejected as unknown; an input the expansion cannot derive is
    /// rejected as a failed derivation.
    pub fn parse(&self, string: &str) -> (r: Result<LlkTree, LlkError>)
        requires
            self.wf(),
        ensures
            (r is Ok) == self.accepts(string@),
            r matches Ok(t) ==> self.expansion(string@) == Some(
                (string@.len() as int, tree_preorder(t)),
            ),
            r matches Ok(t) ==> {
                &&& t is Node
                &&& tree_sym(t) == self.gram().start
                &&& tree_wf(t, self.gram())
                &&& tree_leaves(t) == string@
            },
            !self.gram().term_str_ok(string@) ==> (r matches Err(e)
                && e matches LlkError::UnknownSymbol(ch) && ch == self.gram().term_str_err(
                string@,
            )),
            self.gram().term_str_ok(string@) ==> (r is Ok || (r matches Err(e)
                && e is DerivationFailed)),
    {
        match assert_term_string(&self.grammar, string) {
            Err(e) => Err(e),
            Ok(()) => {
                let s = to_chars(string);
                let mut target = copy_chars(&s);
                target.push(LLK_EOF);
                proof {
                    lemma_first_nonterminal_input(self.gram(), string@);
                    assert(target@ == string@.push(LLK_EOF));
                    assert forall|j: int|
                        0 <= j < target@.len() - 1 implies self.gram().terms.contains(
                        #[trigger] target@[j],
                    ) by {
                        assert(target@[j] == string@[j]);
                    }
                }
                match self.parse_nterm(self.grammar.start_sym(), &target, 0, usize::MAX) {
                    Err(e) => {
                        proof {
                            assert(!self.accepts(string@));
                        }
                        Err(e)
                    },
                    Ok(p) => {
                        let (tree, end) = p;
                        if end != s.len() {
                            proof {
                                assert(!self.accepts(string@));
                            }
                            Err(
                                LlkError::DerivationFailed(
                                    "input was not fully consumed".to_owned(),
                                ),
                            )
                        } else {
                            proof {
                                assert(target@.subrange(0, end as int) =~= string@);
                                assert(self.accepts(string@));
                            }
                            Ok(tree)
                        }
                    },
                }
            },
        }
    }
}





} // verus!
