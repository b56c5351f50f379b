pub mod parser;
pub mod tree;
pub mod grammar_json;

use vstd::prelude::*;

use crate::error::LlkError;
use crate::util::chars_set;
use crate::util::concat_chars;
use crate::util::contains_all;
use crate::util::contains_char;
use crate::util::contains_chars_vec;
use crate::util::contains_opt_chars;
use crate::util::copy_chars;
use crate::util::copy_opt_chars;
use crate::util::distinct_chars;
use crate::util::distinct_opts;
use crate::util::distinct_str_opts;
use crate::util::distinct_strs;
use crate::util::eq_chars;
use crate::util::push_all_chars;
use crate::util::push_all_opts;
use crate::util::push_nonnull;
use crate::util::strs_set;
use crate::util::to_strings;
use crate::util::lemma_chars_set_push;
use crate::util::opt_chars_set;
use crate::util::opt_chars_view;
use crate::util::opt_str_view;
use crate::util::opt_strs_set;
use crate::util::push_prefixes;
use crate::util::push_unique;
use crate::util::push_unique_chars;
use crate::util::push_unique_opt;
use crate::util::skip_chars;
use crate::util::some_set;
use crate::util::take_chars;
use crate::util::to_chars;
use crate::util::to_opt_strings;

verus! {

/// A production as supplied by callers: a non-terminal and either a
/// non-empty derivation string or absence, which stands for epsilon.
pub type LlkProduction = (char, Option<String>);

/// The reserved end-of-input marker. It is appended to the parser's
/// input and never appears in a grammar's alphabet or derivations.
pub const LLK_EOF: char = '\0';

/// The smallest accepted lookahead.
pub const LLK_MIN_LOOKAHEAD: usize = 1;

/// The largest accepted lookahead.
pub const LLK_MAX_LOOKAHEAD: usize = 16;

/// The bound on the depth of leftmost expansion during terminal
/// prefix enumeration. Grammars whose expansion chains stay below
/// this depth — every practical LL(k) grammar — get their exact
/// prefix sets; an enumeration branch deeper than this is abandoned.
pub const LLK_EXPAND_FUEL: usize = 4096;

/// The mathematical content of a grammar: the terminal and
/// non-terminal alphabets, the start symbol, the lookahead length and
/// the ordered production list (epsilon derivations appear as `None`).
pub struct GrammarModel {
    pub terms: Seq<char>,
    pub nterms: Seq<char>,
    pub start: char,
    pub k: nat,
    pub prods: Seq<(char, Option<Seq<char>>)>,
}

impl GrammarModel {
    /// Number of productions.
    pub open spec fn num(self) -> int {
        self.prods.len() as int
    }

    /// The left-hand side of production `i`.
    pub open spec fn lhs(self, i: int) -> char {
        self.prods[i].0
    }

    /// True iff production `i` derives epsilon.
    pub open spec fn is_eps(self, i: int) -> bool {
        self.prods[i].1 is None
    }

    /// The right-hand side of production `i`; epsilon is the empty
    /// sequence.
    pub open spec fn rhs(self, i: int) -> Seq<char> {
        match self.prods[i].1 {
            Some(s) => s,
            None => Seq::empty(),
        }
    }

    /// Terminal membership: the terminal alphabet plus the end marker.
    pub open spec fn is_term(self, c: char) -> bool {
        self.terms.contains(c) || c == LLK_EOF
    }

    /// Non-terminal membership.
    pub open spec fn is_nterm(self, c: char) -> bool {
        self.nterms.contains(c)
    }

    /// True iff `c` is a non-terminal with a direct epsilon production.
    pub open spec fn derives_eps(self, c: char) -> bool {
        &&& !self.is_term(c)
        &&& exists|i: int| 0 <= i < self.num() && #[trigger] self.lhs(i) == c && self.is_eps(i)
    }

    /// One round of the nullability closure: a symbol joins the set
    /// when some of its productions has every right-hand-side symbol
    /// already in the set (an epsilon production qualifies at once).
    pub open spec fn nullable_step(self, s: Set<char>) -> Set<char> {
        s.union(
            Set::new(
                |c: char|
                    exists|i: int|
                        0 <= i < self.num() && #[trigger] self.lhs(i) == c && forall|j: int|
                            0 <= j < self.rhs(i).len() ==> s.contains(#[trigger] self.rhs(i)[j]),
            ),
        )
    }

    /// The nullability closure after `n` rounds, starting empty.
    pub open spec fn nullable_iter(self, n: nat) -> Set<char>
        decreases n,
    {
        if n == 0 {
            Set::empty()
        } else {
            self.nullable_step(self.nullable_iter((n - 1) as nat))
        }
    }

    /// True iff `c` can derive the empty string. One round per
    /// production plus one is enough to reach the closure's fixpoint.
    pub open spec fn nullable(self, c: char) -> bool {
        self.nullable_iter((self.prods.len() + 1) as nat).contains(c)
    }

    /// True iff every symbol of `s` is nullable.
    pub open spec fn all_nullable(self, s: Seq<char>) -> bool {
        forall|j: int| 0 <= j < s.len() ==> self.nullable(#[trigger] s[j])
    }

    /// The position of the first non-nullable symbol of `s`, or
    /// `s.len()` if every symbol is nullable.
    pub open spec fn first_non_nullable(self, s: Seq<char>) -> int
        decreases s.len(),
    {
        if s.len() == 0 {
            0
        } else if !self.nullable(s[0]) {
            0
        } else {
            1 + self.first_non_nullable(s.drop_first())
        }
    }

    /// `s` with its leading run of nullable symbols removed.
    pub open spec fn strip_nullable(self, s: Seq<char>) -> Seq<char> {
        s.skip(self.first_non_nullable(s))
    }

    /// The position of the leftmost non-terminal of `s`, or `s.len()`
    /// if `s` is entirely free of non-terminals.
    pub open spec fn first_nterm_pos(self, s: Seq<char>) -> int
        decreases s.len(),
    {
        if s.len() == 0 {
            0
        } else if self.is_nterm(s[0]) {
            0
        } else {
            1 + self.first_nterm_pos(s.drop_first())
        }
    }

    /// The terminal prefixes of length up to `plen` reachable from `s`
    /// by repeatedly replacing the leftmost non-terminal by each of
    /// its alternatives. An alternative that starts with the expanded
    /// non-terminal itself is skipped as a guard against immediate
    /// left recursion, and `fuel` bounds the expansion depth.
    pub open spec fn term_prefixes(self, s: Seq<char>, plen: int, fuel: nat) -> Set<Seq<char>>
        decreases fuel,
    {
        let p = self.first_nterm_pos(s);
        if p >= s.len() {
            set![s.take(if plen <= s.len() as int { plen } else { s.len() as int })]
        } else if p >= plen {
            set![s.take(plen)]
        } else if fuel == 0 {
            Set::empty()
        } else {
            Set::new(
                |t: Seq<char>|
                    exists|i: int|
                        0 <= i < self.num() && #[trigger] self.lhs(i) == s[p] && !(self.rhs(
                            i,
                        ).len() > 0 && self.rhs(i)[0] == s[p]) && t.len() >= p && t.take(p)
                            == s.take(p) && self.term_prefixes(
                            self.rhs(i) + s.skip(p + 1),
                            plen - p,
                            (fuel - 1) as nat,
                        ).contains(t.skip(p)),
            )
        }
    }

    /// The position of the first character of `s` that is neither a
    /// terminal, the end marker, nor a non-terminal; `s.len()` if all
    /// characters are known.
    pub open spec fn first_unknown_pos(self, s: Seq<char>) -> int
        decreases s.len(),
    {
        if s.len() == 0 {
            0
        } else if !self.is_term(s[0]) && !self.is_nterm(s[0]) {
            0
        } else {
            1 + self.first_unknown_pos(s.drop_first())
        }
    }

    /// A string may be given to FIRST when every character is a
    /// grammar symbol and the end marker, if present at all, is only
    /// the final character.
    pub open spec fn string_ok(self, s: Seq<char>) -> bool {
        &&& self.first_unknown_pos(s) == s.len()
        &&& forall|j: int| 0 <= j < s.len() - 1 ==> s[j] != LLK_EOF
    }

    /// The character reported when a string is rejected: the first
    /// unknown character, or the end marker when it is misplaced.
    pub open spec fn string_err(self, s: Seq<char>) -> char {
        if self.first_unknown_pos(s) < s.len() {
            s[self.first_unknown_pos(s)]
        } else {
            LLK_EOF
        }
    }

    /// The FIRST set of a single non-terminal `a`: epsilon when `a`
    /// derives it directly or some alternative is entirely nullable,
    /// and the terminal prefixes of each alternative after its
    /// nullable lead is dropped.
    pub open spec fn first_of_nterm(self, a: char, fuel: nat) -> Set<Option<Seq<char>>> {
        Set::new(
            |x: Option<Seq<char>>|
                match x {
                    None => self.derives_eps(a) || exists|i: int|
                        0 <= i < self.num() && #[trigger] self.lhs(i) == a && !self.is_eps(i)
                            && self.strip_nullable(self.rhs(i)).len() == 0,
                    Some(t) => exists|i: int|
                        0 <= i < self.num() && #[trigger] self.lhs(i) == a && !self.is_eps(i)
                            && self.strip_nullable(self.rhs(i)).len() > 0 && self.term_prefixes(
                            self.strip_nullable(self.rhs(i)),
                            self.k as int,
                            fuel,
                        ).contains(t),
                },
        )
    }

    /// The FIRST set of a string over the grammar's symbols: epsilon
    /// for the empty string, the character itself for a terminal, the
    /// alternatives' prefixes for a non-terminal, and for longer
    /// strings the terminal prefixes of the whole string plus epsilon
    /// when every symbol is nullable.
    pub open spec fn first_of(self, s: Seq<char>, fuel: nat) -> Set<Option<Seq<char>>> {
        if s.len() == 0 {
            set![None]
        } else if s.len() == 1 {
            if self.is_term(s[0]) {
                set![Some(s)]
            } else {
                self.first_of_nterm(s[0], fuel)
            }
        } else {
            Set::new(
                |x: Option<Seq<char>>|
                    match x {
                        None => self.all_nullable(s),
                        Some(t) => self.term_prefixes(s, self.k as int, fuel).contains(t),
                    },
            )
        }
    }

    /// The FIRST set at the expansion depth the library computes.
    pub open spec fn first_sets(self, s: Seq<char>) -> Set<Option<Seq<char>>> {
        self.first_of(s, LLK_EXPAND_FUEL as nat)
    }

    /// The position of the first character of `s` that is not in the
    /// terminal alphabet; `s.len()` if all are terminals.
    pub open spec fn first_nonterminal_input_pos(self, s: Seq<char>) -> int
        decreases s.len(),
    {
        if s.len() == 0 {
            0
        } else if !self.terms.contains(s[0]) {
            0
        } else {
            1 + self.first_nonterminal_input_pos(s.drop_first())
        }
    }

    /// A parser input is acceptable when it consists of terminals
    /// alone.
    pub open spec fn term_str_ok(self, s: Seq<char>) -> bool {
        self.first_nonterminal_input_pos(s) == s.len()
    }

    /// The character reported when a parser input is rejected.
    pub open spec fn term_str_err(self, s: Seq<char>) -> char {
        s[self.first_nonterminal_input_pos(s)]
    }

    /// The union of the FIRST sets of the suffixes that follow each
    /// non-final occurrence of `a` in a derivation string `rhs`.
    pub open spec fn suffixes_first(self, rhs: Seq<char>, a: char) -> Set<Option<Seq<char>>> {
        Set::new(
            |x: Option<Seq<char>>|
                exists|j: int|
                    0 <= j < rhs.len() - 1 && #[trigger] rhs[j] == a && self.first_sets(
                        rhs.skip(j + 1),
                    ).contains(x),
        )
    }

    /// The number of productions whose view is not yet in `visited`.
    pub open spec fn unvisited(self, visited: Set<(char, Option<Seq<char>>)>) -> nat {
        self.prods.to_set().difference(visited).len()
    }

    /// The FOLLOW computation, walking productions from index `i` on.
    /// For every production whose derivation holds `a`, the FIRST
    /// sets of the suffixes after `a` contribute their non-epsilon
    /// members; when `a` is last or some suffix can vanish, the
    /// production's own left-hand side is expanded recursively, each
    /// production at most once per computation. Returns the set and
    /// the visited productions after the walk.
    pub open spec fn follow_rec(
        self,
        a: char,
        visited: Set<(char, Option<Seq<char>>)>,
        i: int,
        fuel: nat,
    ) -> (Set<Seq<char>>, Set<(char, Option<Seq<char>>)>)
        decreases fuel, self.num() - i,
    {
        if i < 0 || i >= self.num() {
            (Set::empty(), visited)
        } else {
            let p = self.prods[i];
            match p.1 {
                None => self.follow_rec(a, visited, i + 1, fuel),
                Some(rhs) => {
                    if !rhs.contains(a) {
                        self.follow_rec(a, visited, i + 1, fuel)
                    } else {
                        let sfs = self.suffixes_first(rhs, a);
                        let nonnull = Set::new(|t: Seq<char>| sfs.contains(Some(t)));
                        if p.0 != a && !visited.contains(p) && (rhs.last() == a || sfs.contains(
                            None,
                        )) && fuel > 0 {
                            let sub = self.follow_rec(p.0, visited.insert(p), 0, (fuel - 1) as nat);
                            let rest = self.follow_rec(a, sub.1, i + 1, fuel);
                            (sub.0.union(rest.0).union(nonnull), rest.1)
                        } else {
                            let rest = self.follow_rec(a, visited, i + 1, fuel);
                            (rest.0.union(nonnull), rest.1)
                        }
                    }
                },
            }
        }
    }

    /// The FOLLOW set of `a`: every string of terminals that the
    /// walk starting with no visited production collects.
    pub open spec fn follow_set(self, a: char) -> Set<Seq<char>> {
        self.follow_rec(a, Set::empty(), 0, self.prods.len()).0
    }

    /// `t` cut down to the grammar's lookahead length.
    pub open spec fn trunc_k(self, t: Seq<char>) -> Seq<char> {
        if self.k as int <= t.len() {
            t.take(self.k as int)
        } else {
            t
        }
    }

    /// Every truncated concatenation of a member of `f` with a member
    /// of `l`.
    pub open spec fn choice_combine(self, f: Set<Seq<char>>, l: Set<Seq<char>>) -> Set<Seq<char>> {
        Set::new(
            |w: Seq<char>|
                exists|ft: Seq<char>, lt: Seq<char>|
                    #![trigger f.contains(ft), l.contains(lt)]
                    f.contains(ft) && l.contains(lt) && w == self.trunc_k(ft + lt),
        )
    }

    /// The CHOICE set of production `i`: its right-hand side's FIRST
    /// set with epsilon read as the empty string, combined with the
    /// FOLLOW set of its left-hand side unless that set is empty.
    #[verifier::opaque]
    pub open spec fn choice_set(self, i: int) -> Set<Seq<char>> {
        let f = eps_to_empty(self.first_sets(self.rhs(i)));
        let l = self.follow_set(self.lhs(i));
        if l.is_empty() {
            f
        } else {
            self.choice_combine(f, l)
        }
    }
}

/// A set of optional strings with epsilon replaced by the empty
/// string.
pub open spec fn eps_to_empty(s: Set<Option<Seq<char>>>) -> Set<Seq<char>> {
    Set::new(|t: Seq<char>| s.contains(Some(t)) || (t.len() == 0 && s.contains(None)))
}

impl GrammarModel {
    /// Every stored derivation is non-empty; empty ones are
    /// normalised to epsilon at construction.
    pub open spec fn rhs_norm(self) -> bool {
        forall|i: int| 0 <= i < self.num() && !(#[trigger] self.is_eps(i)) ==> self.rhs(i).len() > 0
    }

    /// Validation rule one: both alphabets are non-empty, the start
    /// symbol is a non-terminal, the alphabets are disjoint, and
    /// neither holds the reserved end marker.
    pub open spec fn symbols_ok(self) -> bool {
        &&& self.terms.len() > 0
        &&& self.nterms.len() > 0
        &&& self.nterms.contains(self.start)
        &&& forall|c: char| !(self.terms.contains(c) && #[trigger] self.nterms.contains(c))
        &&& !self.terms.contains(LLK_EOF)
        &&& !self.nterms.contains(LLK_EOF)
    }

    /// Validation rule two: there are productions, every left-hand
    /// side is a non-terminal, every derivation character is an
    /// alphabet symbol, the start symbol has a production, and every
    /// non-terminal has one.
    pub open spec fn productions_ok(self) -> bool {
        &&& self.prods.len() > 0
        &&& forall|i: int| 0 <= i < self.num() ==> self.is_nterm(#[trigger] self.lhs(i))
        &&& forall|i: int, j: int|
            0 <= i < self.num() && 0 <= j < self.rhs(i).len() ==> self.terms.contains(
                #[trigger] self.rhs(i)[j],
            ) || self.nterms.contains(self.rhs(i)[j])
        &&& exists|i: int| 0 <= i < self.num() && #[trigger] self.lhs(i) == self.start
        &&& forall|c: char|
            #[trigger] self.nterms.contains(c) ==> exists|i: int|
                0 <= i < self.num() && #[trigger] self.lhs(i) == c
    }

    /// Validation rule three: the lookahead is within bounds.
    pub open spec fn lookahead_ok(self) -> bool {
        LLK_MIN_LOOKAHEAD as nat <= self.k <= LLK_MAX_LOOKAHEAD as nat
    }

    /// Validation rule four: no production derives a string that
    /// starts with its own left-hand side.
    pub open spec fn no_self_lr(self) -> bool {
        forall|i: int|
            0 <= i < self.num() && #[trigger] self.rhs(i).len() > 0 ==> self.rhs(i)[0] != self.lhs(
                i,
            )
    }

    /// Validation rule five: no two productions form a one-step
    /// leftmost cycle between their left-hand sides.
    pub open spec fn no_cross_lr(self) -> bool {
        forall|i: int, j: int|
            #![trigger self.rhs(i), self.rhs(j)]
            0 <= i < self.num() && 0 <= j < self.num() && self.rhs(i).len() > 0 && self.is_nterm(
                self.rhs(i)[0],
            ) && self.lhs(j) == self.rhs(i)[0] && self.rhs(j).len() > 0 ==> self.rhs(j)[0]
                != self.lhs(i)
    }

    /// One round of reachability: a non-terminal joins once it occurs
    /// in the derivation of a production whose left-hand side is
    /// already reachable.
    pub open spec fn reach_step(self, s: Set<char>) -> Set<char> {
        s.union(
            Set::new(
                |c: char|
                    self.is_nterm(c) && exists|i: int|
                        0 <= i < self.num() && s.contains(#[trigger] self.lhs(i)) && self.rhs(
                            i,
                        ).contains(c),
            ),
        )
    }

    /// Reachability after `n` rounds, starting from the start symbol.
    pub open spec fn reach_iter(self, n: nat) -> Set<char>
        decreases n,
    {
        if n == 0 {
            set![self.start]
        } else {
            self.reach_step(self.reach_iter((n - 1) as nat))
        }
    }

    /// The non-terminals derivable from the start symbol. One round
    /// per non-terminal plus one reaches the closure's fixpoint.
    pub open spec fn reachable(self) -> Set<char> {
        self.reach_iter((self.nterms.len() + 1) as nat)
    }

    /// One round of productivity: a non-terminal joins once one of
    /// its derivations consists of terminals and already-productive
    /// non-terminals only.
    pub open spec fn resolv_step(self, s: Set<char>) -> Set<char> {
        s.union(
            Set::new(
                |c: char|
                    exists|i: int|
                        0 <= i < self.num() && #[trigger] self.lhs(i) == c && !self.is_eps(i)
                            && forall|j: int|
                            0 <= j < self.rhs(i).len() ==> self.terms.contains(
                                #[trigger] self.rhs(i)[j],
                            ) || s.contains(self.rhs(i)[j]),
            ),
        )
    }

    /// Productivity after `n` rounds, starting empty.
    pub open spec fn resolv_iter(self, n: nat) -> Set<char>
        decreases n,
    {
        if n == 0 {
            Set::empty()
        } else {
            self.resolv_step(self.resolv_iter((n - 1) as nat))
        }
    }

    /// The non-terminals that derive some terminal string. One round
    /// per production plus one reaches the closure's fixpoint.
    pub open spec fn resolvable(self) -> Set<char> {
        self.resolv_iter((self.prods.len() + 1) as nat)
    }

    /// Validation rules six to eight: every non-terminal is both
    /// reachable and productive.
    pub open spec fn reach_resolv_ok(self) -> bool {
        forall|c: char|
            #[trigger] self.nterms.contains(c) ==> self.reachable().contains(c)
                && self.resolvable().contains(c)
    }

    /// Validation rule nine, the LL(k) condition: distinct
    /// productions of one non-terminal have disjoint CHOICE sets.
    pub open spec fn llk_ok(self) -> bool {
        forall|i: int, j: int|
            #![trigger self.choice_set(i), self.choice_set(j)]
            0 <= i < j < self.num() && self.lhs(i) == self.lhs(j) ==> self.choice_set(i).disjoint(
                self.choice_set(j),
            )
    }

    /// Everything the validator checks.
    pub open spec fn valid(self) -> bool {
        &&& self.symbols_ok()
        &&& self.productions_ok()
        &&& self.lookahead_ok()
        &&& self.no_self_lr()
        &&& self.no_cross_lr()
        &&& self.reach_resolv_ok()
        &&& self.llk_ok()
    }

    /// A well-formed grammar: normalised and validated. Every
    /// `LlkGrammar` that the constructors hand out satisfies this.
    pub open spec fn wf(self) -> bool {
        &&& self.rhs_norm()
        &&& self.valid()
    }
}

/// A caller-supplied production after normalisation: an empty
/// derivation string stands for epsilon.
pub open spec fn norm_prod_v(p: (char, Option<String>)) -> (char, Option<Seq<char>>) {
    match p.1 {
        None => (p.0, None),
        Some(s) => if s@.len() == 0 {
            (p.0, None)
        } else {
            (p.0, Some(s@))
        },
    }
}

/// The grammar model described by constructor arguments.
pub open spec fn model_of(
    terms: Seq<char>,
    nterms: Seq<char>,
    start: char,
    k: nat,
    prods: Seq<(char, Option<String>)>,
) -> GrammarModel {
    GrammarModel {
        terms: terms,
        nterms: nterms,
        start: start,
        k: k,
        prods: prods.map_values(|p: (char, Option<String>)| norm_prod_v(p)),
    }
}

/// The ordered derivations of the productions of `x`, epsilon as
/// absence.
pub open spec fn derivs_of(prods: Seq<(char, Option<Seq<char>>)>, x: char) -> Seq<
    Option<Seq<char>>,
>
    decreases prods.len(),
{
    if prods.len() == 0 {
        Seq::empty()
    } else {
        let front = derivs_of(prods.drop_last(), x);
        if prods.last().0 == x {
            front.push(prods.last().1)
        } else {
            front
        }
    }
}

/// The suffixes after each non-final occurrence of `a` in `s`, from
/// position `j` on, in order of occurrence.
pub open spec fn nterm_suffixes(s: Seq<char>, a: char, j: int) -> Seq<Seq<char>>
    decreases s.len() - j,
{
    if j < 0 || j >= s.len() {
        Seq::empty()
    } else if s[j] == a && j < s.len() - 1 {
        seq![s.skip(j + 1)] + nterm_suffixes(s, a, j + 1)
    } else {
        nterm_suffixes(s, a, j + 1)
    }
}

/// A production rendered as text: the left-hand side, an arrow, and
/// the derivation.
pub open spec fn formatted_production(p: (char, Option<String>)) -> Seq<char> {
    seq!['(', p.0, ' ', '-', '>', ' '] + (match p.1 {
        Some(s) => s@,
        None => Seq::empty(),
    }) + seq![')']
}

impl GrammarModel {
    /// What a symbol derives in one step: the derivations of its
    /// productions for a non-terminal, the symbol itself otherwise.
    pub open spec fn derivatives(self, x: char) -> Seq<Option<Seq<char>>> {
        if self.is_nterm(x) {
            derivs_of(self.prods, x)
        } else {
            seq![Some(seq![x])]
        }
    }
}

impl LlkGrammar {
    /// Builds and freezes a grammar: empty derivations are
    /// normalised to epsilon and the whole validation runs before the
    /// grammar is handed out.
    pub fn new(
        term_symbols: Vec<char>,
        nterm_symbols: Vec<char>,
        start_symbol: char,
        lookahead: usize,
        productions: Vec<LlkProduction>,
    ) -> (r: Result<LlkGrammar, LlkError>)
        ensures
            ({
                let m = model_of(
                    term_symbols@,
                    nterm_symbols@,
                    start_symbol,
                    lookahead as nat,
                    productions@,
                );
                &&& (r is Ok <==> m.valid())
                &&& (r matches Ok(g) ==> g@ == m && g@.wf())
                &&& (r matches Err(e) ==> e is InvalidGrammar)
            }),
    {
        let ghost m = model_of(
            term_symbols@,
            nterm_symbols@,
            start_symbol,
            lookahead as nat,
            productions@,
        );
        let mut prods: Vec<(char, Option<Vec<char>>)> = Vec::new();
        let mut i: usize = 0;
        while i < productions.len()
            invariant
                0 <= i <= productions@.len(),
                prods@.len() == i,
                forall|j: int|
                    0 <= j < i ==> #[trigger] prod_view(&prods@[j]) == norm_prod_v(
                        productions@[j],
                    ),
            decreases productions@.len() - i,
        {
            match &productions[i].1 {
                None => {
                    prods.push((productions[i].0, None));
                },
                Some(s) => {
                    let cs = to_chars(s.as_str());
                    if cs.len() == 0 {
                        prods.push((productions[i].0, None));
                    } else {
                        prods.push((productions[i].0, Some(cs)));
                    }
                },
            }
            proof {
                assert(prod_view(&prods@[i as int]) == norm_prod_v(productions@[i as int]));
            }
            i = i + 1;
        }
        let grammar = LlkGrammar {
            term_symbols,
            nterm_symbols,
            start_symbol,
            lookahead,
            productions: prods,
        };
        proof {
            assert forall|j: int| 0 <= j < grammar@.prods.len() implies #[trigger] grammar@.prods[j]
                == m.prods[j] by {
                assert(grammar@.prods[j] == prod_view(&grammar.productions@[j]));
                assert(m.prods[j] == norm_prod_v(productions@[j]));
            }
            assert(grammar@.prods =~= m.prods);
            assert(grammar@ == m);
            assert forall|j: int|
                0 <= j < grammar@.num() && !(#[trigger] grammar@.is_eps(j)) implies grammar@.rhs(
                j,
            ).len() > 0 by {
                assert(grammar@.prods[j] == norm_prod_v(productions@[j]));
            }
            assert(grammar@.rhs_norm());
        }
        match assert_grammar(&grammar) {
            Err(e) => Err(e),
            Ok(()) => Ok(grammar),
        }
    }

    /// Decodes a grammar from its external JSON encoding and runs the
    /// whole validation on it; see `grammar_json::parse_grammar_json`.
    pub fn from_json(json_string: &str) -> (r: Result<LlkGrammar, LlkError>)
        ensures
            (crate::grammar::grammar_json::grammar_doc_model(json_string@) is None) == (r matches Err(e)
                && e is GrammarFromJsonFailed),
            crate::grammar::grammar_json::grammar_doc_model(json_string@) matches Some(m) ==> {
                &&& (r is Ok <==> m.valid())
                &&& (r matches Ok(g) ==> g@ == m && g@.wf())
                &&& (r matches Err(e) ==> e is InvalidGrammar)
            },
            r matches Err(e) ==> (e is GrammarFromJsonFailed || e is InvalidGrammar),
    {
        crate::grammar::grammar_json::parse_grammar_json(json_string)
    }

    /// The one-step derivations of `symbol`: the ordered derivation
    /// list of its productions if it is a non-terminal, the symbol
    /// itself as a one-character string otherwise.
    pub fn derive(&self, symbol: char) -> (r: Vec<Option<String>>)
        ensures
            r@.len() == self@.derivatives(symbol).len(),
            forall|j: int|
                0 <= j < r@.len() ==> #[trigger] opt_str_view(&r@[j]) == self@.derivatives(
                    symbol,
                )[j],
    {
        if self.is_nterm(symbol) {
            let mut acc: Vec<Option<Vec<char>>> = Vec::new();
            let mut i: usize = 0;
            while i < self.productions.len()
                invariant
                    0 <= i <= self.productions@.len(),
                    self@.num() == self.productions@.len(),
                    acc@.len() == derivs_of(self@.prods.take(i as int), symbol).len(),
                    forall|j: int|
                        0 <= j < acc@.len() ==> #[trigger] opt_chars_view(&acc@[j]) == derivs_of(
                            self@.prods.take(i as int),
                            symbol,
                        )[j],
                decreases self.productions@.len() - i,
            {
                proof {
                    assert(self@.prods[i as int] == (self.productions@[i as int].0, opt_chars_view(
                        &self.productions@[i as int].1,
                    )));
                    assert(self@.prods.take(i + 1 as int).drop_last() =~= self@.prods.take(
                        i as int,
                    ));
                    assert(self@.prods.take(i + 1 as int).last() == self@.prods[i as int]);
                }
                if self.productions[i].0 == symbol {
                    let d = copy_opt_chars(&self.productions[i].1);
                    proof {
                        assert(opt_chars_view(&d) == self@.prods[i as int].1);
                    }
                    acc.push(d);
                }
                i = i + 1;
            }
            proof {
                assert(self@.prods.take(self@.prods.len() as int) =~= self@.prods);
            }
            to_opt_strings(&acc)
        } else {
            let mut one: Vec<char> = Vec::new();
            one.push(symbol);
            let s = crate::util::chars_to_string(&one);
            let mut r: Vec<Option<String>> = Vec::new();
            r.push(Some(s));
            proof {
                assert(one@ =~= seq![symbol]);
                assert(opt_str_view(&r@[0]) == self@.derivatives(symbol)[0]);
            }
            r
        }
    }

    /// Every terminal prefix of lookahead length reachable from
    /// `string` by leftmost expansion, without duplicates.
    pub fn get_term_prefixes(&self, string: &str) -> (r: Vec<String>)
        ensures
            strs_set(r@) == self@.term_prefixes(
                string@,
                self@.k as int,
                LLK_EXPAND_FUEL as nat,
            ),
            distinct_strs(r@),
    {
        let s = to_chars(string);
        let raw = self.term_prefixes_rec(&s, self.lookahead, LLK_EXPAND_FUEL);
        let mut dedup: Vec<Vec<char>> = Vec::new();
        proof {
            assert(chars_set(dedup@) =~= Set::<Seq<char>>::empty());
        }
        push_all_chars(&mut dedup, &raw);
        proof {
            assert(chars_set(dedup@) =~= chars_set(raw@));
        }
        to_strings(&dedup)
    }

    /// The suffixes after each non-final occurrence of `nterm` in
    /// `string`, or absence when the string is empty or free of
    /// `nterm`.
    pub fn get_nterm_suffixes(&self, string: &str, nterm: char) -> (r: Option<Vec<String>>)
        ensures
            (r is None) == (string@.len() == 0 || !string@.contains(nterm)),
            r matches Some(v) ==> v@.len() == nterm_suffixes(string@, nterm, 0).len() && forall|
                m: int,
            |
                0 <= m < v@.len() ==> #[trigger] v@[m]@ == nterm_suffixes(string@, nterm, 0)[m],
    {
        let s = to_chars(string);
        if s.len() == 0 || !contains_char(&s, nterm) {
            return None;
        }
        let mut acc: Vec<Vec<char>> = Vec::new();
        let mut j: usize = 0;
        while j < s.len()
            invariant
                0 <= j <= s@.len(),
                s@ == string@,
                nterm_suffixes(s@, nterm, 0) =~= acc@.map_values(|v: Vec<char>| v@)
                    + nterm_suffixes(s@, nterm, j as int),
            decreases s@.len() - j,
        {
            let ghost pre = acc@.map_values(|v: Vec<char>| v@);
            if s[j] == nterm && j + 1 < s.len() {
                let suffix = skip_chars(&s, j + 1);
                acc.push(suffix);
                proof {
                    assert(acc@.map_values(|v: Vec<char>| v@) =~= pre.push(s@.skip(j + 1)));
                    assert(nterm_suffixes(s@, nterm, j as int) == seq![s@.skip(j + 1)]
                        + nterm_suffixes(s@, nterm, j + 1));
                    assert(pre + (seq![s@.skip(j + 1)] + nterm_suffixes(s@, nterm, j + 1)) =~= (
                    pre.push(s@.skip(j + 1)) + nterm_suffixes(s@, nterm, j + 1)));
                }
            } else {
                proof {
                    assert(nterm_suffixes(s@, nterm, j as int) == nterm_suffixes(
                        s@,
                        nterm,
                        j + 1,
                    ));
                }
            }
            j = j + 1;
        }
        proof {
            assert(nterm_suffixes(s@, nterm, s@.len() as int) =~= Seq::<Seq<char>>::empty());
            assert(nterm_suffixes(s@, nterm, 0) =~= acc@.map_values(|v: Vec<char>| v@));
        }
        let out = to_strings(&acc);
        proof {
            assert forall|m: int| 0 <= m < out@.len() implies #[trigger] out@[m]@ == nterm_suffixes(
                string@,
                nterm,
                0,
            )[m] by {
                assert(out@[m]@ == acc@[m]@);
                assert(acc@.map_values(|v: Vec<char>| v@)[m] == acc@[m]@);
            }
        }
        Some(out)
    }

    /// A production rendered as text, for messages and statistics.
    pub fn format_production(production: &LlkProduction) -> (r: String)
        ensures
            r@ == formatted_production(*production),
    {
        let mut buf: Vec<char> = Vec::new();
        buf.push('(');
        buf.push(production.0);
        buf.push(' ');
        buf.push('-');
        buf.push('>');
        buf.push(' ');
        match &production.1 {
            Some(s) => {
                let cs = to_chars(s.as_str());
                let mut j: usize = 0;
                while j < cs.len()
                    invariant
                        0 <= j <= cs@.len(),
                        cs@ == (match production.1 {
                            Some(s2) => s2@,
                            None => Seq::<char>::empty(),
                        }),
                        buf@ =~= seq!['(', production.0, ' ', '-', '>', ' '] + cs@.take(j as int),
                    decreases cs@.len() - j,
                {
                    buf.push(cs[j]);
                    proof {
                        assert(buf@ =~= seq!['(', production.0, ' ', '-', '>', ' '] + cs@.take(
                            j + 1 as int,
                        ));
                    }
                    j = j + 1;
                }
                proof {
                    assert(cs@.take(cs@.len() as int) =~= cs@);
                }
            },
            None => {},
        }
        buf.push(')');
        proof {
            assert(buf@ =~= formatted_production(*production));
        }
        crate::util::chars_to_string(&buf)
    }
}

/// FIRST is deterministic: it is a function of the grammar and the
/// string alone, so any two computations of the FIRST set of the same
/// string over the same grammar hold the same set.
pub proof fn lemma_first_deterministic(
    g: GrammarModel,
    s: Seq<char>,
    v1: Seq<Option<String>>,
    v2: Seq<Option<String>>,
)
    requires
        opt_strs_set(v1) == g.first_sets(s),
        opt_strs_set(v2) == g.first_sets(s),
    ensures
        opt_strs_set(v1) == opt_strs_set(v2),
{
}

/// Every terminal prefix that the enumeration yields has at most
/// `plen` characters.
pub proof fn lemma_term_prefixes_bounded(g: GrammarModel, s: Seq<char>, plen: int, fuel: nat)
    requires
        plen >= 0,
    ensures
        forall|t: Seq<char>| #[trigger] g.term_prefixes(s, plen, fuel).contains(t) ==> t.len()
            <= plen,
    decreases fuel,
{
    lemma_first_nterm_pos(g, s);
    let p = g.first_nterm_pos(s);
    if p >= s.len() {
    } else if p >= plen {
    } else if fuel == 0 {
    } else {
        assert forall|t: Seq<char>| #[trigger] g.term_prefixes(s, plen, fuel).contains(
            t,
        ) implies t.len() <= plen by {
            let i = choose|i: int|
                0 <= i < g.num() && #[trigger] g.lhs(i) == s[p] && !(g.rhs(i).len() > 0 && g.rhs(
                    i,
                )[0] == s[p]) && t.len() >= p && t.take(p) == s.take(p) && g.term_prefixes(
                    g.rhs(i) + s.skip(p + 1),
                    plen - p,
                    (fuel - 1) as nat,
                ).contains(t.skip(p));
            lemma_term_prefixes_bounded(g, g.rhs(i) + s.skip(p + 1), plen - p, (fuel - 1) as nat);
            assert(t.skip(p).len() <= plen - p);
        }
    }
}

/// A member of the enumeration shorter than the bound cannot be
/// extended: the expansion that produced it ran out of terminals, so
/// the same string is a member at every larger bound as well.
pub proof fn lemma_term_prefixes_short_is_maximal(
    g: GrammarModel,
    s: Seq<char>,
    plen: int,
    plen2: int,
    fuel: nat,
    t: Seq<char>,
)
    requires
        g.term_prefixes(s, plen, fuel).contains(t),
        t.len() < plen,
        plen2 > t.len(),
    ensures
        g.term_prefixes(s, plen2, fuel).contains(t),
    decreases fuel,
{
    lemma_first_nterm_pos(g, s);
    let p = g.first_nterm_pos(s);
    if p >= s.len() {
        assert(plen > s.len());
        assert(t == s.take(s.len() as int));
        assert(plen2 > s.len());
    } else if p >= plen {
        assert(t == s.take(plen));
        assert(t.len() == plen);
    } else if fuel == 0 {
    } else {
        let i = choose|i: int|
            0 <= i < g.num() && #[trigger] g.lhs(i) == s[p] && !(g.rhs(i).len() > 0 && g.rhs(i)[0]
                == s[p]) && t.len() >= p && t.take(p) == s.take(p) && g.term_prefixes(
                g.rhs(i) + s.skip(p + 1),
                plen - p,
                (fuel - 1) as nat,
            ).contains(t.skip(p));
        assert(t.skip(p).len() == t.len() - p);
        lemma_term_prefixes_short_is_maximal(
            g,
            g.rhs(i) + s.skip(p + 1),
            plen - p,
            plen2 - p,
            (fuel - 1) as nat,
            t.skip(p),
        );
        assert(p < plen2);
    }
}

/// A non-epsilon FIRST member shorter than the lookahead cannot be
/// extended. For a lone terminal the member is the symbol itself; for
/// the enumerated cases the same string remains a member of the
/// producing enumeration at every larger prefix bound.
pub proof fn lemma_first_short_member_maximal(g: GrammarModel, s: Seq<char>, t: Seq<char>, bound: int)
    requires
        g.first_sets(s).contains(Some(t)),
        t.len() < g.k,
        bound > t.len(),
    ensures
        s.len() == 1 && g.is_term(s[0]) ==> t == s,
        s.len() > 1 ==> g.term_prefixes(s, bound, LLK_EXPAND_FUEL as nat).contains(t),
        s.len() == 1 && !g.is_term(s[0]) ==> exists|i: int|
            0 <= i < g.num() && #[trigger] g.lhs(i) == s[0] && !g.is_eps(i) && g.strip_nullable(
                g.rhs(i),
            ).len() > 0 && g.term_prefixes(
                g.strip_nullable(g.rhs(i)),
                bound,
                LLK_EXPAND_FUEL as nat,
            ).contains(t),
{
    if s.len() > 1 {
        lemma_term_prefixes_short_is_maximal(
            g,
            s,
            g.k as int,
            bound,
            LLK_EXPAND_FUEL as nat,
            t,
        );
    } else if s.len() == 1 && !g.is_term(s[0]) {
        let i = choose|i: int|
            0 <= i < g.num() && #[trigger] g.lhs(i) == s[0] && !g.is_eps(i) && g.strip_nullable(
                g.rhs(i),
            ).len() > 0 && g.term_prefixes(
                g.strip_nullable(g.rhs(i)),
                g.k as int,
                LLK_EXPAND_FUEL as nat,
            ).contains(t);
        lemma_term_prefixes_short_is_maximal(
            g,
            g.strip_nullable(g.rhs(i)),
            g.k as int,
            bound,
            LLK_EXPAND_FUEL as nat,
            t,
        );
    }
}

/// FIRST is k-bounded: every non-epsilon member of the FIRST set of
/// any string has at most the grammar's lookahead length.
pub proof fn lemma_first_k_bounded(g: GrammarModel, s: Seq<char>)
    requires
        g.lookahead_ok(),
    ensures
        forall|t: Seq<char>| #[trigger] g.first_sets(s).contains(Some(t)) ==> t.len() <= g.k,
{
    assert forall|t: Seq<char>| #[trigger] g.first_sets(s).contains(Some(t)) implies t.len()
        <= g.k by {
        if s.len() == 1 && g.is_term(s[0]) {
            assert(t == s);
        } else if s.len() == 1 {
            let i = choose|i: int|
                0 <= i < g.num() && #[trigger] g.lhs(i) == s[0] && !g.is_eps(i) && g.strip_nullable(
                    g.rhs(i),
                ).len() > 0 && g.term_prefixes(
                    g.strip_nullable(g.rhs(i)),
                    g.k as int,
                    LLK_EXPAND_FUEL as nat,
                ).contains(t);
            lemma_term_prefixes_bounded(
                g,
                g.strip_nullable(g.rhs(i)),
                g.k as int,
                LLK_EXPAND_FUEL as nat,
            );
        } else if s.len() > 1 {
            lemma_term_prefixes_bounded(g, s, g.k as int, LLK_EXPAND_FUEL as nat);
        }
    }
}

/// CHOICE sets are non-empty: for every production whose derivation's
/// FIRST set is non-empty — which the enumeration guarantees whenever
/// its expansion chains stay within the crate's depth budget — the
/// CHOICE set holds at least one lookahead window.
pub proof fn lemma_choice_set_nonempty(g: GrammarModel, i: int)
    requires
        0 <= i < g.num(),
        !g.first_sets(g.rhs(i)).is_empty(),
    ensures
        !g.choice_set(i).is_empty(),
{
    reveal(GrammarModel::choice_set);
    let fs = g.first_sets(g.rhs(i));
    let f = eps_to_empty(fs);
    assert(exists|x: Option<Seq<char>>| fs.contains(x)) by {
        if forall|x: Option<Seq<char>>| !fs.contains(x) {
            assert(fs =~= Set::<Option<Seq<char>>>::empty());
        }
    }
    let x = choose|x: Option<Seq<char>>| fs.contains(x);
    let ft: Seq<char> = match x {
        Some(t) => t,
        None => Seq::empty(),
    };
    assert(f.contains(ft));
    let l = g.follow_set(g.lhs(i));
    if l.is_empty() {
        assert(g.choice_set(i).contains(ft));
    } else {
        assert(exists|lt: Seq<char>| l.contains(lt)) by {
            if forall|lt: Seq<char>| !l.contains(lt) {
                assert(l =~= Set::<Seq<char>>::empty());
                assert(l.is_empty());
            }
        }
        let lt = choose|lt: Seq<char>| l.contains(lt);
        assert(g.choice_combine(f, l).contains(g.trunc_k(ft + lt)));
        assert(g.choice_set(i).contains(g.trunc_k(ft + lt)));
    }
    assert(!g.choice_set(i).is_empty()) by {
        let w = choose|w: Seq<char>| g.choice_set(i).contains(w);
        assert(g.choice_set(i).contains(w));
        assert(g.choice_set(i) != Set::<Seq<char>>::empty());
    }
}

/// The validator rejects direct left recursion: a grammar with a
/// production that derives a string starting with its own left-hand
/// side is not valid, so grammar construction refuses it.
pub proof fn lemma_validator_rejects_self_left_recursion(m: GrammarModel, i: int)
    requires
        0 <= i < m.num(),
        m.rhs(i).len() > 0,
        m.rhs(i)[0] == m.lhs(i),
    ensures
        !m.valid(),
{
    assert(!m.no_self_lr());
}

/// The validator rejects LL(k) conflicts: a grammar with two distinct
/// productions of one non-terminal whose CHOICE sets share a
/// lookahead is not valid, so grammar construction refuses it.
pub proof fn lemma_validator_rejects_llk_conflict(m: GrammarModel, i: int, j: int, w: Seq<char>)
    requires
        0 <= i < j < m.num(),
        m.lhs(i) == m.lhs(j),
        m.choice_set(i).contains(w),
        m.choice_set(j).contains(w),
    ensures
        !m.valid(),
{
    if m.llk_ok() {
        assert(m.choice_set(i).disjoint(m.choice_set(j)));
        assert(false);
    }
}

/// The view of an internal production.
pub open spec fn prod_view(p: &(char, Option<Vec<char>>)) -> (char, Option<Seq<char>>) {
    (p.0, opt_chars_view(&p.1))
}

/// The set of production views held by a vector of internal
/// productions.
pub open spec fn pv_set(vs: Seq<(char, Option<Vec<char>>)>) -> Set<(char, Option<Seq<char>>)> {
    Set::new(
        |p: (char, Option<Seq<char>>)|
            exists|j: int| 0 <= j < vs.len() && #[trigger] prod_view(&vs[j]) == p,
    )
}

/// Pushing a production adds exactly its view to the set.
pub proof fn lemma_pv_set_push(vs: Seq<(char, Option<Vec<char>>)>, p: (char, Option<Vec<char>>))
    ensures
        pv_set(vs.push(p)) == pv_set(vs).insert(prod_view(&p)),
{
    assert forall|x: (char, Option<Seq<char>>)| #[trigger] pv_set(vs.push(p)).contains(x) implies pv_set(
        vs,
    ).insert(prod_view(&p)).contains(x) by {
        let j = choose|j: int| 0 <= j < vs.push(p).len() && #[trigger] prod_view(&vs.push(p)[j])
            == x;
        if j < vs.len() {
            assert(prod_view(&vs[j]) == x);
        }
    }
    assert forall|x: (char, Option<Seq<char>>)|
        pv_set(vs).insert(prod_view(&p)).contains(x) implies #[trigger] pv_set(
        vs.push(p),
    ).contains(x) by {
        if pv_set(vs).contains(x) {
            let j = choose|j: int| 0 <= j < vs.len() && #[trigger] prod_view(&vs[j]) == x;
            assert(prod_view(&vs.push(p)[j]) == x);
        } else {
            assert(prod_view(&vs.push(p)[vs.len() as int]) == x);
        }
    }
    assert(pv_set(vs.push(p)) =~= pv_set(vs).insert(prod_view(&p)));
}

/// Visiting a production that the grammar holds and that was not yet
/// visited lowers the unvisited count by exactly one.
pub proof fn lemma_unvisited_insert(
    g: GrammarModel,
    visited: Set<(char, Option<Seq<char>>)>,
    p: (char, Option<Seq<char>>),
)
    requires
        g.prods.to_set().contains(p),
        !visited.contains(p),
    ensures
        g.unvisited(visited) >= 1,
        g.unvisited(visited.insert(p)) == g.unvisited(visited) - 1,
{
    vstd::seq_lib::seq_to_set_is_finite(g.prods);
    let d = g.prods.to_set().difference(visited);
    assert(d.contains(p));
    assert(g.prods.to_set().difference(visited.insert(p)) =~= d.remove(p));
    vstd::set::axiom_set_remove_len(d, p);
}

/// Growing the visited set cannot raise the unvisited count.
pub proof fn lemma_unvisited_subset(
    g: GrammarModel,
    v1: Set<(char, Option<Seq<char>>)>,
    v2: Set<(char, Option<Seq<char>>)>,
)
    requires
        v1.subset_of(v2),
    ensures
        g.unvisited(v2) <= g.unvisited(v1),
{
    vstd::seq_lib::seq_to_set_is_finite(g.prods);
    assert(g.prods.to_set().difference(v2).subset_of(g.prods.to_set().difference(v1)));
    vstd::set_lib::lemma_len_subset(
        g.prods.to_set().difference(v2),
        g.prods.to_set().difference(v1),
    );
}

/// The FOLLOW walk only ever grows the visited set.
pub proof fn lemma_follow_visited_grows(
    g: GrammarModel,
    a: char,
    visited: Set<(char, Option<Seq<char>>)>,
    i: int,
    fuel: nat,
)
    ensures
        visited.subset_of(g.follow_rec(a, visited, i, fuel).1),
    decreases fuel, g.num() - i,
{
    if 0 <= i < g.num() {
        let p = g.prods[i];
        match p.1 {
            None => {
                lemma_follow_visited_grows(g, a, visited, i + 1, fuel);
            },
            Some(rhs) => {
                if !rhs.contains(a) {
                    lemma_follow_visited_grows(g, a, visited, i + 1, fuel);
                } else {
                    let sfs = g.suffixes_first(rhs, a);
                    if p.0 != a && !visited.contains(p) && (rhs.last() == a || sfs.contains(None))
                        && fuel > 0 {
                        lemma_follow_visited_grows(g, p.0, visited.insert(p), 0, (fuel - 1) as nat);
                        let sub = g.follow_rec(p.0, visited.insert(p), 0, (fuel - 1) as nat);
                        lemma_follow_visited_grows(g, a, sub.1, i + 1, fuel);
                    } else {
                        lemma_follow_visited_grows(g, a, visited, i + 1, fuel);
                    }
                }
            },
        }
    }
}

/// The first-non-terminal input position is a position in `s` or its
/// length, and every character before it is a terminal.
pub proof fn lemma_first_nonterminal_input(g: GrammarModel, s: Seq<char>)
    ensures
        0 <= g.first_nonterminal_input_pos(s) <= s.len(),
        forall|j: int|
            0 <= j < g.first_nonterminal_input_pos(s) ==> g.terms.contains(#[trigger] s[j]),
    decreases s.len(),
{
    if s.len() > 0 && g.terms.contains(s[0]) {
        lemma_first_nonterminal_input(g, s.drop_first());
        assert forall|j: int| 0 <= j < g.first_nonterminal_input_pos(s) implies g.terms.contains(
            #[trigger] s[j],
        ) by {
            if j > 0 {
                assert(s.drop_first()[j - 1] == s[j]);
            }
        }
    }
}

/// A position whose every earlier character is a terminal, holding a
/// non-terminal character (or the end), is the first-non-terminal
/// input position.
pub proof fn lemma_first_nonterminal_input_at(g: GrammarModel, s: Seq<char>, p: int)
    requires
        0 <= p <= s.len(),
        forall|j: int| 0 <= j < p ==> g.terms.contains(#[trigger] s[j]),
        p < s.len() ==> !g.terms.contains(s[p]),
    ensures
        g.first_nonterminal_input_pos(s) == p,
    decreases s.len(),
{
    if s.len() > 0 && g.terms.contains(s[0]) {
        assert forall|j: int| 0 <= j < p - 1 implies g.terms.contains(
            #[trigger] s.drop_first()[j],
        ) by {
            assert(s.drop_first()[j] == s[j + 1]);
        }
        lemma_first_nonterminal_input_at(g, s.drop_first(), p - 1);
    }
}

/// A position whose every earlier character is known, holding an
/// unknown character (or the end), is the first-unknown position.
pub proof fn lemma_first_unknown_pos_at(g: GrammarModel, s: Seq<char>, p: int)
    requires
        0 <= p <= s.len(),
        forall|j: int| 0 <= j < p ==> g.is_term(#[trigger] s[j]) || g.is_nterm(#[trigger] s[j]),
        p < s.len() ==> !g.is_term(s[p]) && !g.is_nterm(s[p]),
    ensures
        g.first_unknown_pos(s) == p,
    decreases s.len(),
{
    if s.len() > 0 && (g.is_term(s[0]) || g.is_nterm(s[0])) {
        assert forall|j: int| 0 <= j < p - 1 implies g.is_term(#[trigger] s.drop_first()[j])
            || g.is_nterm(#[trigger] s.drop_first()[j]) by {
            assert(s.drop_first()[j] == s[j + 1]);
        }
        lemma_first_unknown_pos_at(g, s.drop_first(), p - 1);
    }
}

/// A position with only nullable symbols before it, and a
/// non-nullable symbol (or the end) at it, is the first-non-nullable
/// position.
pub proof fn lemma_first_non_nullable_at(g: GrammarModel, s: Seq<char>, p: int)
    requires
        0 <= p <= s.len(),
        forall|j: int| 0 <= j < p ==> g.nullable(#[trigger] s[j]),
        p < s.len() ==> !g.nullable(s[p]),
    ensures
        g.first_non_nullable(s) == p,
    decreases s.len(),
{
    if s.len() > 0 && g.nullable(s[0]) {
        assert forall|j: int| 0 <= j < p - 1 implies g.nullable(#[trigger] s.drop_first()[j]) by {
            assert(s.drop_first()[j] == s[j + 1]);
        }
        lemma_first_non_nullable_at(g, s.drop_first(), p - 1);
    }
}

/// The leftmost-non-terminal position is a position in `s` or its
/// length; everything before it is a terminal-or-unknown symbol and
/// the symbol there, if any, is a non-terminal.
pub proof fn lemma_first_nterm_pos(g: GrammarModel, s: Seq<char>)
    ensures
        0 <= g.first_nterm_pos(s) <= s.len(),
        forall|j: int| 0 <= j < g.first_nterm_pos(s) ==> !g.is_nterm(#[trigger] s[j]),
        g.first_nterm_pos(s) < s.len() ==> g.is_nterm(s[g.first_nterm_pos(s)]),
    decreases s.len(),
{
    if s.len() > 0 && !g.is_nterm(s[0]) {
        lemma_first_nterm_pos(g, s.drop_first());
        assert forall|j: int| 0 <= j < g.first_nterm_pos(s) implies !g.is_nterm(#[trigger] s[j]) by {
            if j > 0 {
                assert(s.drop_first()[j - 1] == s[j]);
            }
        }
    }
}

/// A position with no non-terminal before it and a non-terminal (or
/// the end) at it is the leftmost-non-terminal position.
pub proof fn lemma_first_nterm_pos_at(g: GrammarModel, s: Seq<char>, p: int)
    requires
        0 <= p <= s.len(),
        forall|j: int| 0 <= j < p ==> !g.is_nterm(#[trigger] s[j]),
        p < s.len() ==> g.is_nterm(s[p]),
    ensures
        g.first_nterm_pos(s) == p,
    decreases s.len(),
{
    if s.len() > 0 && !g.is_nterm(s[0]) {
        assert forall|j: int| 0 <= j < p - 1 implies !g.is_nterm(#[trigger] s.drop_first()[j]) by {
            assert(s.drop_first()[j] == s[j + 1]);
        }
        lemma_first_nterm_pos_at(g, s.drop_first(), p - 1);
    }
}

/// A frozen LL(k) grammar. Values of this type are only produced by
/// the validating constructors, so every grammar in circulation has
/// passed the full validation of `assert_grammar`.
pub struct LlkGrammar {
    pub(crate) term_symbols: Vec<char>,
    pub(crate) nterm_symbols: Vec<char>,
    pub(crate) start_symbol: char,
    pub(crate) lookahead: usize,
    pub(crate) productions: Vec<(char, Option<Vec<char>>)>,
}

impl View for LlkGrammar {
    type V = GrammarModel;

    closed spec fn view(&self) -> GrammarModel {
        GrammarModel {
            terms: self.term_symbols@,
            nterms: self.nterm_symbols@,
            start: self.start_symbol,
            k: self.lookahead as nat,
            prods: self.productions@.map_values(
                |p: (char, Option<Vec<char>>)| (p.0, opt_chars_view(&p.1)),
            ),
        }
    }
}

impl LlkGrammar {
    /// True iff `symbol` is a terminal of this grammar or the end
    /// marker.
    pub fn is_term(&self, symbol: char) -> (r: bool)
        ensures
            r == self@.is_term(symbol),
    {
        contains_char(&self.term_symbols, symbol) || symbol == LLK_EOF
    }

    /// True iff `symbol` is a non-terminal of this grammar.
    pub fn is_nterm(&self, symbol: char) -> (r: bool)
        ensures
            r == self@.is_nterm(symbol),
    {
        contains_char(&self.nterm_symbols, symbol)
    }

    /// True iff `symbol` is a non-terminal with a direct epsilon
    /// production.
    pub fn derives_epsilon(&self, symbol: char) -> (r: bool)
        ensures
            r == self@.derives_eps(symbol),
    {
        if self.is_term(symbol) {
            return false;
        }
        proof {
            assert(self@.num() == self.productions@.len());
        }
        let mut i: usize = 0;
        while i < self.productions.len()
            invariant
                0 <= i <= self.productions@.len(),
                self@.num() == self.productions@.len(),
                !self@.is_term(symbol),
                forall|j: int| 0 <= j < i ==> !(#[trigger] self@.lhs(j) == symbol && self@.is_eps(j)),
            decreases self.productions@.len() - i,
        {
            if self.productions[i].0 == symbol && self.productions[i].1.is_none() {
                proof {
                    assert(self@.lhs(i as int) == symbol && self@.is_eps(i as int));
                }
                return true;
            }
            i = i + 1;
        }
        false
    }
}

impl LlkGrammar {
    /// One executable round of the nullability closure.
    fn nullable_step_exec(&self, cur: &Vec<char>) -> (r: Vec<char>)
        ensures
            r@.to_set() == self@.nullable_step(cur@.to_set()),
    {
        let mut next: Vec<char> = Vec::new();
        let mut i: usize = 0;
        while i < cur.len()
            invariant
                0 <= i <= cur@.len(),
                next@ == cur@.take(i as int),
            decreases cur@.len() - i,
        {
            next.push(cur[i]);
            proof {
                assert(next@ =~= cur@.take(i + 1 as int));
            }
            i = i + 1;
        }
        proof {
            assert(next@ =~= cur@);
        }
        let ghost s0 = cur@.to_set();
        let mut p: usize = 0;
        while p < self.productions.len()
            invariant
                0 <= p <= self.productions@.len(),
                self@.num() == self.productions@.len(),
                self@.prods == self.productions@.map_values(
                    |q: (char, Option<Vec<char>>)| (q.0, opt_chars_view(&q.1)),
                ),
                s0 == cur@.to_set(),
                next@.to_set() == s0.union(
                    Set::new(
                        |c: char|
                            exists|i2: int|
                                0 <= i2 < p && #[trigger] self@.lhs(i2) == c && forall|j: int|
                                    0 <= j < self@.rhs(i2).len() ==> cur@.contains(
                                        #[trigger] self@.rhs(i2)[j],
                                    ),
                    ),
                ),
            decreases self.productions@.len() - p,
        {
            proof {
                assert(self@.prods[p as int] == (self.productions@[p as int].0, opt_chars_view(
                    &self.productions@[p as int].1,
                )));
            }
            let qualifies: bool;
            match &self.productions[p].1 {
                None => {
                    qualifies = true;
                    proof {
                        assert(self@.rhs(p as int) == Seq::<char>::empty());
                    }
                },
                Some(v) => {
                    qualifies = contains_all(cur, v);
                    proof {
                        assert(self@.rhs(p as int) == v@);
                        assert(qualifies == (forall|j: int|
                            0 <= j < self@.rhs(p as int).len() ==> cur@.contains(
                                #[trigger] self@.rhs(p as int)[j],
                            )));
                    }
                },
            }
            proof {
                assert(qualifies == (forall|j: int|
                    0 <= j < self@.rhs(p as int).len() ==> cur@.contains(
                        #[trigger] self@.rhs(p as int)[j],
                    )));
            }
            let ghost prev = next@.to_set();
            if qualifies {
                push_unique(&mut next, self.productions[p].0);
            }
            proof {
                let setp = Set::new(
                    |c: char|
                        exists|i2: int|
                            0 <= i2 < p && #[trigger] self@.lhs(i2) == c && forall|j: int|
                                0 <= j < self@.rhs(i2).len() ==> cur@.contains(
                                    #[trigger] self@.rhs(i2)[j],
                                ),
                );
                let setp1 = Set::new(
                    |c: char|
                        exists|i2: int|
                            0 <= i2 < p + 1 && #[trigger] self@.lhs(i2) == c && forall|j: int|
                                0 <= j < self@.rhs(i2).len() ==> cur@.contains(
                                    #[trigger] self@.rhs(i2)[j],
                                ),
                );
                assert forall|x: char| #[trigger] next@.to_set().contains(x) implies s0.union(
                    setp1,
                ).contains(x) by {
                    if prev.contains(x) {
                        if setp.contains(x) {
                            let i2 = choose|i2: int|
                                0 <= i2 < p && #[trigger] self@.lhs(i2) == x && forall|j: int|
                                    0 <= j < self@.rhs(i2).len() ==> cur@.contains(
                                        #[trigger] self@.rhs(i2)[j],
                                    );
                            assert(0 <= i2 < p + 1 && self@.lhs(i2) == x);
                            assert(setp1.contains(x));
                        }
                    } else {
                        assert(qualifies && x == self@.lhs(p as int));
                        assert(setp1.contains(x));
                    }
                }
                assert forall|x: char| s0.union(setp1).contains(x) implies #[trigger] next@.to_set().contains(x) by {
                    if setp1.contains(x) {
                        let i2 = choose|i2: int|
                            0 <= i2 < p + 1 && #[trigger] self@.lhs(i2) == x && forall|j: int|
                                0 <= j < self@.rhs(i2).len() ==> cur@.contains(
                                    #[trigger] self@.rhs(i2)[j],
                                );
                        if i2 < p {
                            assert(setp.contains(x));
                            assert(prev.contains(x));
                        } else {
                            assert(i2 == p && qualifies);
                        }
                    }
                }
                assert(next@.to_set() =~= s0.union(setp1));
            }
            p = p + 1;
        }
        proof {
            assert(next@.to_set() =~= self@.nullable_step(cur@.to_set()));
        }
        next
    }

    /// The set of nullable symbols of this grammar, computed by
    /// iterating the closure one round per production plus one.
    pub(crate) fn compute_nullable(&self) -> (r: Vec<char>)
        ensures
            forall|c: char| r@.contains(c) <==> self@.nullable(c),
    {
        let mut cur: Vec<char> = Vec::new();
        proof {
            assert(cur@.to_set() =~= self@.nullable_iter(0));
        }
        let n = self.productions.len();
        let mut round: usize = 0;
        while round < n
            invariant
                0 <= round <= n,
                n == self.productions@.len(),
                self@.num() == self.productions@.len(),
                cur@.to_set() == self@.nullable_iter(round as nat),
            decreases n - round,
        {
            cur = self.nullable_step_exec(&cur);
            round = round + 1;
        }
        let r = self.nullable_step_exec(&cur);
        proof {
            assert(r@.to_set() == self@.nullable_iter((self@.prods.len() + 1) as nat));
            assert(forall|c: char| r@.to_set().contains(c) == r@.contains(c));
        }
        r
    }

    /// The position of the leftmost non-terminal of `s`, or its
    /// length when there is none.
    fn first_nterm_pos_exec(&self, s: &Vec<char>) -> (p: usize)
        ensures
            p == self@.first_nterm_pos(s@),
    {
        let mut i: usize = 0;
        while i < s.len()
            invariant
                0 <= i <= s@.len(),
                forall|j: int| 0 <= j < i ==> !self@.is_nterm(#[trigger] s@[j]),
            decreases s@.len() - i,
        {
            if self.is_nterm(s[i]) {
                proof {
                    lemma_first_nterm_pos_at(self@, s@, i as int);
                }
                return i;
            }
            i = i + 1;
        }
        proof {
            lemma_first_nterm_pos_at(self@, s@, s@.len() as int);
        }
        s.len()
    }

    /// The position of the first symbol of `s` that is not nullable,
    /// given the precomputed nullable set `nv`.
    fn first_non_nullable_exec(&self, nv: &Vec<char>, s: &Vec<char>) -> (p: usize)
        requires
            forall|c: char| nv@.contains(c) <==> self@.nullable(c),
        ensures
            p == self@.first_non_nullable(s@),
            0 <= p <= s@.len(),
    {
        let mut i: usize = 0;
        while i < s.len()
            invariant
                0 <= i <= s@.len(),
                forall|c: char| nv@.contains(c) <==> self@.nullable(c),
                forall|j: int| 0 <= j < i ==> self@.nullable(#[trigger] s@[j]),
            decreases s@.len() - i,
        {
            if !contains_char(nv, s[i]) {
                proof {
                    lemma_first_non_nullable_at(self@, s@, i as int);
                }
                return i;
            }
            i = i + 1;
        }
        proof {
            lemma_first_non_nullable_at(self@, s@, s@.len() as int);
        }
        s.len()
    }

    /// The terminal-prefix enumeration of `term_prefixes`, computed
    /// by bounded leftmost expansion.
    fn term_prefixes_rec(&self, s: &Vec<char>, plen: usize, fuel: usize) -> (r: Vec<Vec<char>>)
        ensures
            chars_set(r@) == self@.term_prefixes(s@, plen as int, fuel as nat),
        decreases fuel,
    {
        let p = self.first_nterm_pos_exec(s);
        proof {
            lemma_first_nterm_pos(self@, s@);
        }
        if p == s.len() {
            let m = if plen <= s.len() {
                plen
            } else {
                s.len()
            };
            let pre = take_chars(s, m);
            let mut r: Vec<Vec<char>> = Vec::new();
            r.push(pre);
            proof {
                assert(chars_set(r@) =~= self@.term_prefixes(s@, plen as int, fuel as nat)) by {
                    assert(r@[0]@ == s@.take(m as int));
                    lemma_chars_set_push(Seq::<Vec<char>>::empty(), r@[0]);
                    assert(r@ =~= Seq::<Vec<char>>::empty().push(r@[0]));
                    assert(chars_set(Seq::<Vec<char>>::empty()) =~= Set::<Seq<char>>::empty());
                }
            }
            r
        } else if p >= plen {
            let pre = take_chars(s, plen);
            let mut r: Vec<Vec<char>> = Vec::new();
            r.push(pre);
            proof {
                assert(chars_set(r@) =~= self@.term_prefixes(s@, plen as int, fuel as nat)) by {
                    assert(r@[0]@ == s@.take(plen as int));
                    lemma_chars_set_push(Seq::<Vec<char>>::empty(), r@[0]);
                    assert(r@ =~= Seq::<Vec<char>>::empty().push(r@[0]));
                    assert(chars_set(Seq::<Vec<char>>::empty()) =~= Set::<Seq<char>>::empty());
                }
            }
            r
        } else if fuel == 0 {
            let r: Vec<Vec<char>> = Vec::new();
            proof {
                assert(chars_set(r@) =~= self@.term_prefixes(s@, plen as int, fuel as nat));
            }
            r
        } else {
            let ghost gp = p as int;
            let ghost gplen = plen as int;
            let ghost gfuel = fuel as nat;
            let a = s[p];
            let prefix = take_chars(s, p);
            let suffix = skip_chars(s, p + 1);
            let mut r: Vec<Vec<char>> = Vec::new();
            let ghost expansion_adds = |i: int, t: Seq<char>|
                {
                    &&& self@.lhs(i) == a
                    &&& !(self@.rhs(i).len() > 0 && self@.rhs(i)[0] == a)
                    &&& t.len() >= gp
                    &&& t.take(gp) == s@.take(gp)
                    &&& self@.term_prefixes(
                        self@.rhs(i) + s@.skip(gp + 1),
                        gplen - gp,
                        (gfuel - 1) as nat,
                    ).contains(t.skip(gp))
                };
            let mut i: usize = 0;
            while i < self.productions.len()
                invariant
                    0 <= i <= self.productions@.len(),
                    self@.num() == self.productions@.len(),
                    self@.prods == self.productions@.map_values(
                        |q: (char, Option<Vec<char>>)| (q.0, opt_chars_view(&q.1)),
                    ),
                    0 <= gp < gplen,
                    gp == p,
                    gplen == plen,
                    gfuel == fuel,
                    gfuel >= 1,
                    gp < s@.len(),
                    a == s@[gp],
                    prefix@ == s@.take(gp),
                    suffix@ == s@.skip(gp + 1),
                    expansion_adds == (|i2: int, t: Seq<char>|
                        {
                            &&& self@.lhs(i2) == a
                            &&& !(self@.rhs(i2).len() > 0 && self@.rhs(i2)[0] == a)
                            &&& t.len() >= gp
                            &&& t.take(gp) == s@.take(gp)
                            &&& self@.term_prefixes(
                                self@.rhs(i2) + s@.skip(gp + 1),
                                gplen - gp,
                                (gfuel - 1) as nat,
                            ).contains(t.skip(gp))
                        }),
                    chars_set(r@) == Set::new(
                        |t: Seq<char>| exists|i2: int| 0 <= i2 < i && #[trigger] expansion_adds(i2, t),
                    ),
                decreases self.productions@.len() - i,
            {
                let ghost prev = chars_set(r@);
                proof {
                    assert(self@.prods[i as int] == (self.productions@[i as int].0, opt_chars_view(
                        &self.productions@[i as int].1,
                    )));
                }
                if self.productions[i].0 == a {
                    let mut expand = false;
                    let mut new_s: Vec<char> = Vec::new();
                    match &self.productions[i].1 {
                        None => {
                            new_s = skip_chars(&suffix, 0);
                            expand = true;
                            proof {
                                assert(self@.rhs(i as int) + s@.skip(gp + 1) =~= new_s@);
                            }
                        },
                        Some(v) => {
                            if !(v.len() > 0 && v[0] == a) {
                                new_s = concat_chars(v, &suffix);
                                expand = true;
                                proof {
                                    assert(self@.rhs(i as int) == v@);
                                }
                            }
                        },
                    }
                    proof {
                        assert(expand == !(self@.rhs(i as int).len() > 0 && self@.rhs(i as int)[0]
                            == a));
                    }
                    if expand {
                        proof {
                            assert(new_s@ == self@.rhs(i as int) + s@.skip(gp + 1));
                        }
                        let sub = self.term_prefixes_rec(&new_s, plen - p, fuel - 1);
                        let ghost subset = self@.term_prefixes(
                            self@.rhs(i as int) + s@.skip(gp + 1),
                            gplen - gp,
                            (gfuel - 1) as nat,
                        );
                        let mut j: usize = 0;
                        while j < sub.len()
                            invariant
                                0 <= j <= sub@.len(),
                                prefix@ == s@.take(gp),
                                prefix@.len() == gp,
                                0 <= gp,
                                chars_set(sub@) == subset,
                                chars_set(r@) == prev.union(
                                    Set::new(
                                        |t: Seq<char>|
                                            exists|j2: int|
                                                0 <= j2 < j && #[trigger] sub@[j2]@ == t.skip(gp)
                                                    && t.len() >= gp && t.take(gp) == s@.take(gp),
                                    ),
                                ),
                            decreases sub@.len() - j,
                        {
                            let t_new = concat_chars(&prefix, &sub[j]);
                            proof {
                                lemma_chars_set_push(r@, t_new);
                                assert(t_new@.take(gp) =~= s@.take(gp));
                                assert(t_new@.skip(gp) =~= sub@[j as int]@);
                            }
                            r.push(t_new);
                            proof {
                                let oldset = Set::new(
                                    |t: Seq<char>|
                                        exists|j2: int|
                                            0 <= j2 < j && #[trigger] sub@[j2]@ == t.skip(gp)
                                                && t.len() >= gp && t.take(gp) == s@.take(gp),
                                );
                                let newset = Set::new(
                                    |t: Seq<char>|
                                        exists|j2: int|
                                            0 <= j2 < j + 1 && #[trigger] sub@[j2]@ == t.skip(gp)
                                                && t.len() >= gp && t.take(gp) == s@.take(gp),
                                );
                                assert forall|t: Seq<char>| newset.contains(t) implies oldset.insert(
                                    t_new@,
                                ).contains(t) by {
                                    let j2 = choose|j2: int|
                                        0 <= j2 < j + 1 && #[trigger] sub@[j2]@ == t.skip(gp)
                                            && t.len() >= gp && t.take(gp) == s@.take(gp);
                                    if j2 == j {
                                        assert(t =~= t.take(gp) + t.skip(gp));
                                        assert(t_new@ =~= t.take(gp) + t.skip(gp));
                                    }
                                }
                                assert forall|t: Seq<char>|
                                    oldset.insert(t_new@).contains(t) implies newset.contains(
                                    t,
                                ) by {
                                    if oldset.contains(t) {
                                        let j2 = choose|j2: int|
                                            0 <= j2 < j && #[trigger] sub@[j2]@ == t.skip(gp)
                                                && t.len() >= gp && t.take(gp) == s@.take(gp);
                                        assert(sub@[j2]@ == t.skip(gp));
                                    } else {
                                        assert(sub@[j as int]@ == t_new@.skip(gp));
                                    }
                                }
                                assert(chars_set(r@) =~= prev.union(newset));
                            }
                            j = j + 1;
                        }
                        proof {
                            let pushed = Set::new(
                                |t: Seq<char>|
                                    exists|j2: int|
                                        0 <= j2 < sub@.len() && #[trigger] sub@[j2]@ == t.skip(gp)
                                            && t.len() >= gp && t.take(gp) == s@.take(gp),
                            );
                            let upto1 = Set::new(
                                |t: Seq<char>|
                                    exists|i2: int| 0 <= i2 < i + 1 && #[trigger] expansion_adds(i2, t),
                            );
                            let upto = Set::new(
                                |t: Seq<char>|
                                    exists|i2: int| 0 <= i2 < i && #[trigger] expansion_adds(i2, t),
                            );
                            assert forall|t: Seq<char>| prev.union(pushed).contains(t) implies upto1.contains(
                                t,
                            ) by {
                                if prev.contains(t) {
                                    let i2 = choose|i2: int|
                                        0 <= i2 < i && #[trigger] expansion_adds(i2, t);
                                    assert(expansion_adds(i2, t));
                                } else {
                                    let j2 = choose|j2: int|
                                        0 <= j2 < sub@.len() && #[trigger] sub@[j2]@ == t.skip(gp)
                                            && t.len() >= gp && t.take(gp) == s@.take(gp);
                                    assert(chars_set(sub@).contains(t.skip(gp)));
                                    assert(expansion_adds(i as int, t));
                                }
                            }
                            assert forall|t: Seq<char>| upto1.contains(t) implies prev.union(
                                pushed,
                            ).contains(t) by {
                                let i2 = choose|i2: int| 0 <= i2 < i + 1 && #[trigger] expansion_adds(
                                    i2,
                                    t,
                                );
                                if i2 < i {
                                    assert(upto.contains(t));
                                } else {
                                    assert(expansion_adds(i as int, t));
                                    assert(subset.contains(t.skip(gp)));
                                    let j2 = choose|j2: int|
                                        0 <= j2 < sub@.len() && #[trigger] sub@[j2]@ == t.skip(gp);
                                    assert(pushed.contains(t));
                                }
                            }
                            assert(chars_set(r@) =~= upto1);
                        }
                    } else {
                        proof {
                            let upto1 = Set::new(
                                |t: Seq<char>|
                                    exists|i2: int| 0 <= i2 < i + 1 && #[trigger] expansion_adds(i2, t),
                            );
                            assert forall|t: Seq<char>| upto1.contains(t) implies prev.contains(
                                t,
                            ) by {
                                let i2 = choose|i2: int| 0 <= i2 < i + 1 && #[trigger] expansion_adds(
                                    i2,
                                    t,
                                );
                                if i2 == i {
                                    assert(false);
                                }
                            }
                            assert forall|t: Seq<char>| prev.contains(t) implies upto1.contains(
                                t,
                            ) by {
                                let i2 = choose|i2: int| 0 <= i2 < i && #[trigger] expansion_adds(i2, t);
                                assert(expansion_adds(i2, t));
                            }
                            assert(chars_set(r@) =~= upto1);
                        }
                    }
                } else {
                    proof {
                        let upto1 = Set::new(
                            |t: Seq<char>|
                                exists|i2: int| 0 <= i2 < i + 1 && #[trigger] expansion_adds(i2, t),
                        );
                        assert forall|t: Seq<char>| upto1.contains(t) implies prev.contains(t) by {
                            let i2 = choose|i2: int| 0 <= i2 < i + 1 && #[trigger] expansion_adds(i2, t);
                            if i2 == i {
                                assert(false);
                            }
                        }
                        assert forall|t: Seq<char>| prev.contains(t) implies upto1.contains(t) by {
                            let i2 = choose|i2: int| 0 <= i2 < i && #[trigger] expansion_adds(i2, t);
                            assert(expansion_adds(i2, t));
                        }
                        assert(chars_set(r@) =~= upto1);
                    }
                }
                i = i + 1;
            }
            proof {
                let full = Set::new(
                    |t: Seq<char>|
                        exists|i2: int| 0 <= i2 < self@.num() && #[trigger] expansion_adds(i2, t),
                );
                let spec_set = self@.term_prefixes(s@, plen as int, fuel as nat);
                assert forall|t: Seq<char>| full.contains(t) implies spec_set.contains(t) by {
                    let i2 = choose|i2: int| 0 <= i2 < self@.num() && #[trigger] expansion_adds(i2, t);
                    assert(0 <= i2 < self@.num() && self@.lhs(i2) == s@[gp] && !(self@.rhs(
                        i2,
                    ).len() > 0 && self@.rhs(i2)[0] == s@[gp]) && t.len() >= gp && t.take(gp)
                        == s@.take(gp) && self@.term_prefixes(
                        self@.rhs(i2) + s@.skip(gp + 1),
                        gplen - gp,
                        (gfuel - 1) as nat,
                    ).contains(t.skip(gp)));
                }
                assert forall|t: Seq<char>| spec_set.contains(t) implies full.contains(t) by {
                    let i2 = choose|i2: int|
                        0 <= i2 < self@.num() && #[trigger] self@.lhs(i2) == s@[gp] && !(self@.rhs(
                            i2,
                        ).len() > 0 && self@.rhs(i2)[0] == s@[gp]) && t.len() >= gp && t.take(gp)
                            == s@.take(gp) && self@.term_prefixes(
                            self@.rhs(i2) + s@.skip(gp + 1),
                            gplen - gp,
                            (gfuel - 1) as nat,
                        ).contains(t.skip(gp));
                    assert(expansion_adds(i2, t));
                }
                assert(chars_set(r@) =~= spec_set);
            }
            r
        }
    }

    /// One executable round of reachability.
    fn reach_step_exec(&self, cur: &Vec<char>) -> (r: Vec<char>)
        ensures
            r@.to_set() == self@.reach_step(cur@.to_set()),
    {
        let ghost s0 = cur@.to_set();
        let mut next: Vec<char> = Vec::new();
        let mut i0: usize = 0;
        while i0 < cur.len()
            invariant
                0 <= i0 <= cur@.len(),
                next@ == cur@.take(i0 as int),
            decreases cur@.len() - i0,
        {
            next.push(cur[i0]);
            proof {
                assert(next@ =~= cur@.take(i0 + 1 as int));
            }
            i0 = i0 + 1;
        }
        proof {
            assert(next@ =~= cur@);
        }
        let ghost row = |b: int|
            Set::new(
                |c: char|
                    self@.is_nterm(c) && exists|i2: int|
                        0 <= i2 < b && s0.contains(#[trigger] self@.lhs(i2)) && self@.rhs(
                            i2,
                        ).contains(c),
            );
        let mut i: usize = 0;
        while i < self.productions.len()
            invariant
                0 <= i <= self.productions@.len(),
                self@.num() == self.productions@.len(),
                s0 == cur@.to_set(),
                row == (|b: int|
                    Set::new(
                        |c: char|
                            self@.is_nterm(c) && exists|i2: int|
                                0 <= i2 < b && s0.contains(#[trigger] self@.lhs(i2)) && self@.rhs(
                                    i2,
                                ).contains(c),
                    )),
                next@.to_set() == s0.union(row(i as int)),
            decreases self.productions@.len() - i,
        {
            let ghost prev = next@.to_set();
            proof {
                assert(self@.prods[i as int] == (self.productions@[i as int].0, opt_chars_view(
                    &self.productions@[i as int].1,
                )));
            }
            if contains_char(cur, self.productions[i].0) {
                match &self.productions[i].1 {
                    Some(v) => {
                        let mut j: usize = 0;
                        while j < v.len()
                            invariant
                                0 <= j <= v@.len(),
                                0 <= i < self@.num(),
                                v@ == self@.rhs(i as int),
                                s0.contains(self@.lhs(i as int)),
                                next@.to_set() == prev.union(
                                    Set::new(
                                        |c: char|
                                            self@.is_nterm(c) && exists|j2: int|
                                                0 <= j2 < j && #[trigger] v@[j2] == c,
                                    ),
                                ),
                            decreases v@.len() - j,
                        {
                            let ghost before = next@.to_set();
                            if self.is_nterm(v[j]) {
                                push_unique(&mut next, v[j]);
                            }
                            proof {
                                let part = Set::new(
                                    |c: char|
                                        self@.is_nterm(c) && exists|j2: int|
                                            0 <= j2 < j && #[trigger] v@[j2] == c,
                                );
                                let part1 = Set::new(
                                    |c: char|
                                        self@.is_nterm(c) && exists|j2: int|
                                            0 <= j2 < j + 1 && #[trigger] v@[j2] == c,
                                );
                                assert forall|c: char| #[trigger] part1.contains(c) implies next@.to_set().contains(
                                    c,
                                ) by {
                                    let j2 = choose|j2: int| 0 <= j2 < j + 1 && #[trigger] v@[j2]
                                        == c;
                                    if j2 < j {
                                        assert(part.contains(c));
                                        assert(before.contains(c));
                                    }
                                }
                                assert forall|c: char| #[trigger] next@.to_set().contains(
                                    c,
                                ) implies prev.union(part1).contains(c) by {
                                    if before.contains(c) {
                                        if part.contains(c) {
                                            let j2 = choose|j2: int|
                                                0 <= j2 < j && #[trigger] v@[j2] == c;
                                            assert(part1.contains(c));
                                        }
                                    } else {
                                        assert(c == v@[j as int] && self@.is_nterm(c));
                                        assert(part1.contains(c));
                                    }
                                }
                                assert(next@.to_set() =~= prev.union(part1));
                            }
                            j = j + 1;
                        }
                        proof {
                            let part = Set::new(
                                |c: char|
                                    self@.is_nterm(c) && exists|j2: int|
                                        0 <= j2 < v@.len() && #[trigger] v@[j2] == c,
                            );
                            assert forall|c: char| #[trigger] row(i + 1 as int).contains(
                                c,
                            ) implies prev.union(part).contains(c) by {
                                let i2 = choose|i2: int|
                                    0 <= i2 < i + 1 && s0.contains(#[trigger] self@.lhs(i2))
                                        && self@.rhs(i2).contains(c);
                                if i2 < i {
                                    assert(row(i as int).contains(c));
                                } else {
                                    let j2 = choose|j2: int|
                                        0 <= j2 < self@.rhs(i as int).len()
                                            && #[trigger] self@.rhs(i as int)[j2] == c;
                                    assert(v@[j2] == c);
                                    assert(part.contains(c));
                                }
                            }
                            assert forall|c: char| prev.union(part).contains(c) implies s0.union(
                                row(i + 1 as int),
                            ).contains(c) by {
                                if prev.contains(c) {
                                    if row(i as int).contains(c) {
                                        let i2 = choose|i2: int|
                                            0 <= i2 < i && s0.contains(#[trigger] self@.lhs(i2))
                                                && self@.rhs(i2).contains(c);
                                        assert(row(i + 1 as int).contains(c));
                                    }
                                } else {
                                    let j2 = choose|j2: int| 0 <= j2 < v@.len() && #[trigger] v@[j2]
                                        == c;
                                    assert(self@.rhs(i as int).contains(c));
                                    assert(row(i + 1 as int).contains(c));
                                }
                            }
                            assert(next@.to_set() =~= s0.union(row(i + 1 as int)));
                        }
                    },
                    None => {
                        proof {
                            assert(self@.rhs(i as int) =~= Seq::<char>::empty());
                            assert forall|c: char| #[trigger] row(i + 1 as int).contains(
                                c,
                            ) implies row(i as int).contains(c) by {
                                let i2 = choose|i2: int|
                                    0 <= i2 < i + 1 && s0.contains(#[trigger] self@.lhs(i2))
                                        && self@.rhs(i2).contains(c);
                                assert(i2 < i);
                            }
                            assert forall|c: char| #[trigger] row(i as int).contains(c) implies row(
                                i + 1 as int,
                            ).contains(c) by {
                                let i2 = choose|i2: int|
                                    0 <= i2 < i && s0.contains(#[trigger] self@.lhs(i2))
                                        && self@.rhs(i2).contains(c);
                            }
                            assert(next@.to_set() =~= s0.union(row(i + 1 as int)));
                        }
                    },
                }
            } else {
                proof {
                    assert(!s0.contains(self@.lhs(i as int)));
                    assert forall|c: char| #[trigger] row(i + 1 as int).contains(c) implies row(
                        i as int,
                    ).contains(c) by {
                        let i2 = choose|i2: int|
                            0 <= i2 < i + 1 && s0.contains(#[trigger] self@.lhs(i2)) && self@.rhs(
                                i2,
                            ).contains(c);
                        assert(i2 < i);
                    }
                    assert forall|c: char| #[trigger] row(i as int).contains(c) implies row(
                        i + 1 as int,
                    ).contains(c) by {
                        let i2 = choose|i2: int|
                            0 <= i2 < i && s0.contains(#[trigger] self@.lhs(i2)) && self@.rhs(
                                i2,
                            ).contains(c);
                    }
                    assert(next@.to_set() =~= s0.union(row(i + 1 as int)));
                }
            }
            i = i + 1;
        }
        proof {
            assert(next@.to_set() =~= self@.reach_step(cur@.to_set()));
        }
        next
    }

    /// True iff every symbol of `v` is a terminal or a member of
    /// `cur`.
    fn rhs_resolvable(&self, cur: &Vec<char>, v: &Vec<char>) -> (r: bool)
        ensures
            r == forall|j: int|
                0 <= j < v@.len() ==> self@.terms.contains(#[trigger] v@[j]) || cur@.contains(
                    v@[j],
                ),
    {
        let mut j: usize = 0;
        while j < v.len()
            invariant
                0 <= j <= v@.len(),
                self@.terms == self.term_symbols@,
                forall|j2: int|
                    0 <= j2 < j ==> self@.terms.contains(#[trigger] v@[j2]) || cur@.contains(
                        v@[j2],
                    ),
            decreases v@.len() - j,
        {
            if !contains_char(&self.term_symbols, v[j]) && !contains_char(cur, v[j]) {
                return false;
            }
            j = j + 1;
        }
        true
    }

    /// One executable round of productivity.
    fn resolv_step_exec(&self, cur: &Vec<char>) -> (r: Vec<char>)
        ensures
            r@.to_set() == self@.resolv_step(cur@.to_set()),
    {
        let ghost s0 = cur@.to_set();
        let mut next: Vec<char> = Vec::new();
        let mut i0: usize = 0;
        while i0 < cur.len()
            invariant
                0 <= i0 <= cur@.len(),
                next@ == cur@.take(i0 as int),
            decreases cur@.len() - i0,
        {
            next.push(cur[i0]);
            proof {
                assert(next@ =~= cur@.take(i0 + 1 as int));
            }
            i0 = i0 + 1;
        }
        proof {
            assert(next@ =~= cur@);
        }
        let ghost row = |b: int|
            Set::new(
                |c: char|
                    exists|i2: int|
                        0 <= i2 < b && #[trigger] self@.lhs(i2) == c && !self@.is_eps(i2)
                            && forall|j: int|
                            0 <= j < self@.rhs(i2).len() ==> self@.terms.contains(
                                #[trigger] self@.rhs(i2)[j],
                            ) || s0.contains(self@.rhs(i2)[j]),
            );
        let mut i: usize = 0;
        while i < self.productions.len()
            invariant
                0 <= i <= self.productions@.len(),
                self@.num() == self.productions@.len(),
                s0 == cur@.to_set(),
                row == (|b: int|
                    Set::new(
                        |c: char|
                            exists|i2: int|
                                0 <= i2 < b && #[trigger] self@.lhs(i2) == c && !self@.is_eps(i2)
                                    && forall|j: int|
                                    0 <= j < self@.rhs(i2).len() ==> self@.terms.contains(
                                        #[trigger] self@.rhs(i2)[j],
                                    ) || s0.contains(self@.rhs(i2)[j]),
                    )),
                next@.to_set() == s0.union(row(i as int)),
            decreases self.productions@.len() - i,
        {
            let ghost prev = next@.to_set();
            proof {
                assert(self@.prods[i as int] == (self.productions@[i as int].0, opt_chars_view(
                    &self.productions@[i as int].1,
                )));
            }
            let qualifies: bool;
            match &self.productions[i].1 {
                None => {
                    qualifies = false;
                    proof {
                        assert(self@.is_eps(i as int));
                    }
                },
                Some(v) => {
                    qualifies = self.rhs_resolvable(cur, v);
                    proof {
                        assert(self@.rhs(i as int) == v@);
                        assert(!self@.is_eps(i as int));
                    }
                },
            }
            if qualifies {
                push_unique(&mut next, self.productions[i].0);
            }
            proof {
                assert forall|x: char| cur@.to_set().contains(x) == cur@.contains(x) by {}
                assert forall|c: char| #[trigger] row(i + 1 as int).contains(c) implies next@.to_set().contains(
                    c,
                ) by {
                    let i2 = choose|i2: int|
                        0 <= i2 < i + 1 && #[trigger] self@.lhs(i2) == c && !self@.is_eps(i2)
                            && forall|j: int|
                            0 <= j < self@.rhs(i2).len() ==> self@.terms.contains(
                                #[trigger] self@.rhs(i2)[j],
                            ) || s0.contains(self@.rhs(i2)[j]);
                    if i2 < i {
                        assert(row(i as int).contains(c));
                        assert(prev.contains(c));
                    } else {
                        assert(qualifies);
                    }
                }
                assert forall|c: char| #[trigger] next@.to_set().contains(c) implies s0.union(
                    row(i + 1 as int),
                ).contains(c) by {
                    if prev.contains(c) {
                        if row(i as int).contains(c) {
                            let i2 = choose|i2: int|
                                0 <= i2 < i && #[trigger] self@.lhs(i2) == c && !self@.is_eps(i2)
                                    && forall|j: int|
                                    0 <= j < self@.rhs(i2).len() ==> self@.terms.contains(
                                        #[trigger] self@.rhs(i2)[j],
                                    ) || s0.contains(self@.rhs(i2)[j]);
                            assert(row(i + 1 as int).contains(c));
                        }
                    } else {
                        assert(qualifies && c == self@.lhs(i as int));
                        assert(row(i + 1 as int).contains(c));
                    }
                }
                assert(next@.to_set() =~= s0.union(row(i + 1 as int)));
            }
            i = i + 1;
        }
        proof {
            assert(next@.to_set() =~= self@.resolv_step(cur@.to_set()));
        }
        next
    }

    /// The FIRST set of a character string, over the internal
    /// representation, given the precomputed nullable set `nv`.
    pub(crate) fn first_chars(&self, s: &Vec<char>, nv: &Vec<char>) -> (r: Vec<
        Option<Vec<char>>,
    >)
        requires
            forall|c: char| nv@.contains(c) <==> self@.nullable(c),
        ensures
            opt_chars_set(r@) == self@.first_of(s@, LLK_EXPAND_FUEL as nat),
            distinct_opts(r@),
    {
        let ghost fuel = LLK_EXPAND_FUEL as nat;
        let mut acc: Vec<Option<Vec<char>>> = Vec::new();
        proof {
            assert(opt_chars_set(acc@) =~= Set::<Option<Seq<char>>>::empty());
        }
        if s.len() == 0 {
            push_unique_opt(&mut acc, None);
            proof {
                assert(opt_chars_set(acc@) =~= self@.first_of(s@, fuel));
            }
            acc
        } else if s.len() == 1 {
            let c = s[0];
            if self.is_term(c) {
                let cc = copy_chars(s);
                push_unique_opt(&mut acc, Some(cc));
                proof {
                    assert(opt_chars_set(acc@) =~= self@.first_of(s@, fuel));
                }
                acc
            } else {
                if self.derives_epsilon(c) {
                    push_unique_opt(&mut acc, None);
                }
                let ghost fo = |b: int, x: Option<Seq<char>>|
                    match x {
                        None => self@.derives_eps(c) || exists|i2: int|
                            0 <= i2 < b && #[trigger] self@.lhs(i2) == c && !self@.is_eps(i2)
                                && self@.strip_nullable(self@.rhs(i2)).len() == 0,
                        Some(t) => exists|i2: int|
                            0 <= i2 < b && #[trigger] self@.lhs(i2) == c && !self@.is_eps(i2)
                                && self@.strip_nullable(self@.rhs(i2)).len() > 0
                                && self@.term_prefixes(
                                self@.strip_nullable(self@.rhs(i2)),
                                self@.k as int,
                                fuel,
                            ).contains(t),
                    };
                proof {
                    assert forall|x: Option<Seq<char>>|
                        opt_chars_set(acc@).contains(x) <==> fo(0int, x) by {
                        match x {
                            None => {},
                            Some(t) => {},
                        }
                    }
                    assert(opt_chars_set(acc@) =~= Set::new(|x: Option<Seq<char>>| fo(0int, x)));
                }
                let mut i: usize = 0;
                while i < self.productions.len()
                    invariant
                        0 <= i <= self.productions@.len(),
                        self@.num() == self.productions@.len(),
                        self@.prods == self.productions@.map_values(
                            |q: (char, Option<Vec<char>>)| (q.0, opt_chars_view(&q.1)),
                        ),
                        forall|ch: char| nv@.contains(ch) <==> self@.nullable(ch),
                        fuel == LLK_EXPAND_FUEL as nat,
                        self@.k == self.lookahead as nat,
                        fo == (|b: int, x: Option<Seq<char>>|
                            match x {
                                None => self@.derives_eps(c) || exists|i2: int|
                                    0 <= i2 < b && #[trigger] self@.lhs(i2) == c && !self@.is_eps(
                                        i2,
                                    ) && self@.strip_nullable(self@.rhs(i2)).len() == 0,
                                Some(t) => exists|i2: int|
                                    0 <= i2 < b && #[trigger] self@.lhs(i2) == c && !self@.is_eps(
                                        i2,
                                    ) && self@.strip_nullable(self@.rhs(i2)).len() > 0
                                        && self@.term_prefixes(
                                        self@.strip_nullable(self@.rhs(i2)),
                                        self@.k as int,
                                        fuel,
                                    ).contains(t),
                            }),
                        opt_chars_set(acc@) == Set::new(
                            |x: Option<Seq<char>>| fo(i as int, x),
                        ),
                        distinct_opts(acc@),
                    decreases self.productions@.len() - i,
                {
                    let ghost prev = opt_chars_set(acc@);
                    proof {
                        assert(self@.prods[i as int] == (self.productions@[i as int].0,
                        opt_chars_view(&self.productions@[i as int].1)));
                    }
                    if self.productions[i].0 == c {
                        match &self.productions[i].1 {
                            None => {
                                proof {
                                    assert(self@.is_eps(i as int));
                                    assert forall|x: Option<Seq<char>>| #[trigger] fo(
                                        i + 1 as int,
                                        x,
                                    ) <==> fo(i as int, x) by {
                                        match x {
                                            None => {
                                                if fo(i + 1 as int, x) && !self@.derives_eps(c) {
                                                    let i2 = choose|i2: int|
                                                        0 <= i2 < i + 1 && #[trigger] self@.lhs(i2)
                                                            == c && !self@.is_eps(i2)
                                                            && self@.strip_nullable(
                                                            self@.rhs(i2),
                                                        ).len() == 0;
                                                    assert(i2 < i);
                                                }
                                            },
                                            Some(t) => {
                                                if fo(i + 1 as int, x) {
                                                    let i2 = choose|i2: int|
                                                        0 <= i2 < i + 1 && #[trigger] self@.lhs(i2)
                                                            == c && !self@.is_eps(i2)
                                                            && self@.strip_nullable(
                                                            self@.rhs(i2),
                                                        ).len() > 0 && self@.term_prefixes(
                                                            self@.strip_nullable(self@.rhs(i2)),
                                                            self@.k as int,
                                                            fuel,
                                                        ).contains(t);
                                                    assert(i2 < i);
                                                }
                                            },
                                        }
                                    }
                                    assert(opt_chars_set(acc@) =~= Set::new(
                                        |x: Option<Seq<char>>| fo(i + 1 as int, x),
                                    ));
                                }
                            },
                            Some(v) => {
                                proof {
                                    assert(!self@.is_eps(i as int));
                                    assert(self@.rhs(i as int) == v@);
                                }
                                let sp = self.first_non_nullable_exec(nv, v);
                                let stripped = skip_chars(v, sp);
                                proof {
                                    assert(stripped@ == self@.strip_nullable(
                                        self@.rhs(i as int),
                                    ));
                                }
                                if stripped.len() == 0 {
                                    push_unique_opt(&mut acc, None);
                                    proof {
                                        assert forall|x: Option<Seq<char>>|
                                            Set::new(
                                                |x2: Option<Seq<char>>| fo(i + 1 as int, x2),
                                            ).contains(x) implies prev.insert(None).contains(
                                            x,
                                        ) by {
                                            match x {
                                                None => {},
                                                Some(t) => {
                                                    let i2 = choose|i2: int|
                                                        0 <= i2 < i + 1 && #[trigger] self@.lhs(i2)
                                                            == c && !self@.is_eps(i2)
                                                            && self@.strip_nullable(
                                                            self@.rhs(i2),
                                                        ).len() > 0 && self@.term_prefixes(
                                                            self@.strip_nullable(self@.rhs(i2)),
                                                            self@.k as int,
                                                            fuel,
                                                        ).contains(t);
                                                    assert(i2 < i);
                                                    assert(fo(i as int, x));
                                                },
                                            }
                                        }
                                        assert forall|x: Option<Seq<char>>|
                                            prev.insert(None).contains(x) implies Set::new(
                                            |x2: Option<Seq<char>>| fo(i + 1 as int, x2),
                                        ).contains(x) by {
                                            if prev.contains(x) {
                                                assert(fo(i as int, x));
                                                match x {
                                                    None => {},
                                                    Some(t) => {
                                                        let i2 = choose|i2: int|
                                                            0 <= i2 < i && #[trigger] self@.lhs(i2)
                                                                == c && !self@.is_eps(i2)
                                                                && self@.strip_nullable(
                                                                self@.rhs(i2),
                                                            ).len() > 0 && self@.term_prefixes(
                                                                self@.strip_nullable(
                                                                    self@.rhs(i2),
                                                                ),
                                                                self@.k as int,
                                                                fuel,
                                                            ).contains(t);
                                                        assert(fo(i + 1 as int, x));
                                                    },
                                                }
                                            } else {
                                                assert(self@.lhs(i as int) == c && !self@.is_eps(
                                                    i as int,
                                                ) && self@.strip_nullable(
                                                    self@.rhs(i as int),
                                                ).len() == 0);
                                                assert(fo(i + 1 as int, x));
                                            }
                                        }
                                        assert(opt_chars_set(acc@) =~= Set::new(
                                            |x: Option<Seq<char>>| fo(i + 1 as int, x),
                                        ));
                                    }
                                } else {
                                    let tps = self.term_prefixes_rec(
                                        &stripped,
                                        self.lookahead,
                                        LLK_EXPAND_FUEL,
                                    );
                                    let ghost tpset = self@.term_prefixes(
                                        self@.strip_nullable(self@.rhs(i as int)),
                                        self@.k as int,
                                        fuel,
                                    );
                                    proof {
                                        assert(chars_set(tps@) == tpset);
                                    }
                                    push_prefixes(&mut acc, &tps);
                                    proof {
                                        assert forall|x: Option<Seq<char>>|
                                            Set::new(
                                                |x2: Option<Seq<char>>| fo(i + 1 as int, x2),
                                            ).contains(x) implies prev.union(
                                            some_set(tpset),
                                        ).contains(x) by {
                                            match x {
                                                None => {
                                                    if !self@.derives_eps(c) {
                                                        let i2 = choose|i2: int|
                                                            0 <= i2 < i + 1 && #[trigger] self@.lhs(
                                                                i2,
                                                            ) == c && !self@.is_eps(i2)
                                                                && self@.strip_nullable(
                                                                self@.rhs(i2),
                                                            ).len() == 0;
                                                        assert(i2 < i);
                                                        assert(fo(i as int, x));
                                                    } else {
                                                        assert(fo(i as int, x));
                                                    }
                                                },
                                                Some(t) => {
                                                    let i2 = choose|i2: int|
                                                        0 <= i2 < i + 1 && #[trigger] self@.lhs(i2)
                                                            == c && !self@.is_eps(i2)
                                                            && self@.strip_nullable(
                                                            self@.rhs(i2),
                                                        ).len() > 0 && self@.term_prefixes(
                                                            self@.strip_nullable(self@.rhs(i2)),
                                                            self@.k as int,
                                                            fuel,
                                                        ).contains(t);
                                                    if i2 < i {
                                                        assert(fo(i as int, x));
                                                    } else {
                                                        assert(tpset.contains(t));
                                                        assert(some_set(tpset).contains(x));
                                                    }
                                                },
                                            }
                                        }
                                        assert forall|x: Option<Seq<char>>|
                                            prev.union(some_set(tpset)).contains(x) implies Set::new(
                                            |x2: Option<Seq<char>>| fo(i + 1 as int, x2),
                                        ).contains(x) by {
                                            if prev.contains(x) {
                                                assert(fo(i as int, x));
                                                match x {
                                                    None => {},
                                                    Some(t) => {
                                                        if !self@.derives_eps(c) || true {
                                                            let i2 = choose|i2: int|
                                                                0 <= i2 < i && #[trigger] self@.lhs(
                                                                    i2,
                                                                ) == c && !self@.is_eps(i2)
                                                                    && self@.strip_nullable(
                                                                    self@.rhs(i2),
                                                                ).len() > 0
                                                                    && self@.term_prefixes(
                                                                    self@.strip_nullable(
                                                                        self@.rhs(i2),
                                                                    ),
                                                                    self@.k as int,
                                                                    fuel,
                                                                ).contains(t);
                                                            assert(fo(i + 1 as int, x));
                                                        }
                                                    },
                                                }
                                            } else {
                                                match x {
                                                    None => {},
                                                    Some(t) => {
                                                        assert(tpset.contains(t));
                                                        assert(self@.lhs(i as int) == c
                                                            && !self@.is_eps(i as int)
                                                            && self@.strip_nullable(
                                                            self@.rhs(i as int),
                                                        ).len() > 0 && self@.term_prefixes(
                                                            self@.strip_nullable(
                                                                self@.rhs(i as int),
                                                            ),
                                                            self@.k as int,
                                                            fuel,
                                                        ).contains(t));
                                                        assert(fo(i + 1 as int, x));
                                                    },
                                                }
                                            }
                                        }
                                        assert(opt_chars_set(acc@) =~= Set::new(
                                            |x: Option<Seq<char>>| fo(i + 1 as int, x),
                                        ));
                                    }
                                }
                            },
                        }
                    } else {
                        proof {
                            assert forall|x: Option<Seq<char>>| #[trigger] fo(
                                i + 1 as int,
                                x,
                            ) <==> fo(i as int, x) by {
                                match x {
                                    None => {
                                        if fo(i + 1 as int, x) && !self@.derives_eps(c) {
                                            let i2 = choose|i2: int|
                                                0 <= i2 < i + 1 && #[trigger] self@.lhs(i2) == c
                                                    && !self@.is_eps(i2) && self@.strip_nullable(
                                                    self@.rhs(i2),
                                                ).len() == 0;
                                            assert(i2 < i);
                                        }
                                    },
                                    Some(t) => {
                                        if fo(i + 1 as int, x) {
                                            let i2 = choose|i2: int|
                                                0 <= i2 < i + 1 && #[trigger] self@.lhs(i2) == c
                                                    && !self@.is_eps(i2) && self@.strip_nullable(
                                                    self@.rhs(i2),
                                                ).len() > 0 && self@.term_prefixes(
                                                    self@.strip_nullable(self@.rhs(i2)),
                                                    self@.k as int,
                                                    fuel,
                                                ).contains(t);
                                            assert(i2 < i);
                                        }
                                    },
                                }
                            }
                            assert(opt_chars_set(acc@) =~= Set::new(
                                |x: Option<Seq<char>>| fo(i + 1 as int, x),
                            ));
                        }
                    }
                    i = i + 1;
                }
                proof {
                    assert forall|x: Option<Seq<char>>|
                        fo(self@.num(), x) <==> self@.first_of_nterm(c, fuel).contains(x) by {
                        match x {
                            None => {},
                            Some(t) => {},
                        }
                    }
                    assert(opt_chars_set(acc@) =~= self@.first_of_nterm(c, fuel));
                    assert(self@.first_of(s@, fuel) == self@.first_of_nterm(c, fuel));
                }
                acc
            }
        } else {
            if contains_all(nv, s) {
                push_unique_opt(&mut acc, None);
            }
            let ghost base = opt_chars_set(acc@);
            let tps = self.term_prefixes_rec(s, self.lookahead, LLK_EXPAND_FUEL);
            let ghost tpset = self@.term_prefixes(s@, self@.k as int, fuel);
            proof {
                assert(chars_set(tps@) == tpset);
            }
            push_prefixes(&mut acc, &tps);
            proof {
                assert forall|x: Option<Seq<char>>|
                    opt_chars_set(acc@).contains(x) <==> self@.first_of(s@, fuel).contains(x) by {
                    match x {
                        None => {
                            assert(!some_set(tpset).contains(x));
                        },
                        Some(t) => {
                            assert(!base.contains(x));
                        },
                    }
                }
                assert(opt_chars_set(acc@) =~= self@.first_of(s@, fuel));
            }
            acc
        }
    }
}

/// Checks that `string` may be handed to FIRST or FOLLOW
/// computations: every character is a grammar symbol and the end
/// marker, if present, stands only at the end.
pub fn assert_grammar_string(grammar: &LlkGrammar, string: &str) -> (r: Result<(), LlkError>)
    ensures
        grammar@.string_ok(string@) ==> r is Ok,
        !grammar@.string_ok(string@) ==> (r matches Err(e) && e matches LlkError::UnknownSymbol(ch)
            && ch == grammar@.string_err(string@)),
{
    let s = to_chars(string);
    let mut i: usize = 0;
    while i < s.len()
        invariant
            0 <= i <= s@.len(),
            s@ == string@,
            forall|j: int|
                0 <= j < i ==> grammar@.is_term(#[trigger] s@[j]) || grammar@.is_nterm(
                    #[trigger] s@[j],
                ),
        decreases s@.len() - i,
    {
        if !is_known_symbol(grammar, s[i]) {
            proof {
                lemma_first_unknown_pos_at(grammar@, s@, i as int);
            }
            return Err(LlkError::UnknownSymbol(s[i]));
        }
        i = i + 1;
    }
    proof {
        lemma_first_unknown_pos_at(grammar@, s@, s@.len() as int);
    }
    if s.len() > 0 {
        let m = s.len() - 1;
        let mut j: usize = 0;
        while j < m
            invariant
                0 <= j <= m,
                m == s@.len() - 1,
                s@ == string@,
                grammar@.first_unknown_pos(s@) == s@.len(),
                forall|j2: int| 0 <= j2 < j ==> s@[j2] != LLK_EOF,
            decreases m - j,
        {
            if s[j] == LLK_EOF {
                return Err(LlkError::UnknownSymbol(LLK_EOF));
            }
            j = j + 1;
        }
    }
    Ok(())
}

/// Checks that `string` may be handed to the parser: every character
/// is a terminal of the grammar.
pub fn assert_term_string(grammar: &LlkGrammar, string: &str) -> (r: Result<(), LlkError>)
    ensures
        grammar@.term_str_ok(string@) ==> r is Ok,
        !grammar@.term_str_ok(string@) ==> (r matches Err(e) && e matches LlkError::UnknownSymbol(
            ch,
        ) && ch == grammar@.term_str_err(string@)),
{
    let s = to_chars(string);
    let mut i: usize = 0;
    while i < s.len()
        invariant
            0 <= i <= s@.len(),
            s@ == string@,
            grammar@.terms == grammar.term_symbols@,
            forall|j: int| 0 <= j < i ==> grammar@.terms.contains(#[trigger] s@[j]),
        decreases s@.len() - i,
    {
        if !contains_char(&grammar.term_symbols, s[i]) {
            proof {
                lemma_first_nonterminal_input_at(grammar@, s@, i as int);
            }
            return Err(LlkError::UnknownSymbol(s[i]));
        }
        i = i + 1;
    }
    proof {
        lemma_first_nonterminal_input_at(grammar@, s@, s@.len() as int);
    }
    Ok(())
}

/// True iff `c` is some symbol of the grammar: terminal, end marker
/// or non-terminal.
fn is_known_symbol(grammar: &LlkGrammar, c: char) -> (r: bool)
    ensures
        r == (grammar@.is_term(c) || grammar@.is_nterm(c)),
{
    grammar.is_term(c) || grammar.is_nterm(c)
}

/// The non-terminals reachable from the start symbol, computed by
/// iterating the reachability closure one round per non-terminal plus
/// one.
pub fn get_reachable_nterms(grammar: &LlkGrammar) -> (r: Vec<char>)
    ensures
        forall|c: char| r@.contains(c) <==> grammar@.reachable().contains(c),
{
    let mut cur: Vec<char> = Vec::new();
    cur.push(grammar.start_symbol);
    proof {
        assert(cur@.len() == 1 && cur@[0] == grammar@.start);
        assert forall|x: char| #[trigger] cur@.to_set().contains(x) implies set![grammar@.start].contains(x) by {
            let ix = choose|ix: int| 0 <= ix < cur@.len() && cur@[ix] == x;
        }
        assert forall|x: char| set![grammar@.start].contains(x) implies #[trigger] cur@.to_set().contains(x) by {
            assert(cur@[0] == x);
        }
        assert(cur@.to_set() =~= set![grammar@.start]);
        assert(cur@.to_set() == grammar@.reach_iter(0));
    }
    let n = grammar.nterm_symbols.len();
    let mut round: usize = 0;
    while round < n
        invariant
            0 <= round <= n,
            n == grammar.nterm_symbols@.len(),
            grammar@.nterms == grammar.nterm_symbols@,
            cur@.to_set() == grammar@.reach_iter(round as nat),
        decreases n - round,
    {
        cur = grammar.reach_step_exec(&cur);
        round = round + 1;
    }
    let r = grammar.reach_step_exec(&cur);
    proof {
        assert(r@.to_set() == grammar@.reach_iter((grammar@.nterms.len() + 1) as nat));
        assert(forall|c: char| r@.to_set().contains(c) == r@.contains(c));
    }
    r
}

/// The productive non-terminals, computed by iterating the
/// productivity closure one round per production plus one.
pub fn get_resolvable_nterms(grammar: &LlkGrammar) -> (r: Vec<char>)
    ensures
        forall|c: char| r@.contains(c) <==> grammar@.resolvable().contains(c),
{
    let mut cur: Vec<char> = Vec::new();
    proof {
        assert(cur@.to_set() =~= Set::<char>::empty());
        assert(cur@.to_set() == grammar@.resolv_iter(0));
    }
    let n = grammar.productions.len();
    let mut round: usize = 0;
    while round < n
        invariant
            0 <= round <= n,
            n == grammar.productions@.len(),
            grammar@.num() == n,
            cur@.to_set() == grammar@.resolv_iter(round as nat),
        decreases n - round,
    {
        cur = grammar.resolv_step_exec(&cur);
        round = round + 1;
    }
    let r = grammar.resolv_step_exec(&cur);
    proof {
        assert(r@.to_set() == grammar@.resolv_iter((grammar@.prods.len() + 1) as nat));
        assert(forall|c: char| r@.to_set().contains(c) == r@.contains(c));
    }
    r
}

/// Checks validation rules four to nine: no direct or one-step
/// indirect left recursion, every non-terminal reachable and
/// productive, and pairwise disjoint CHOICE sets per non-terminal.
pub fn assert_llk_conditions(grammar: &LlkGrammar) -> (r: Result<(), LlkError>)
    ensures
        r is Ok <==> (grammar@.no_self_lr() && grammar@.no_cross_lr() && grammar@.reach_resolv_ok()
            && grammar@.llk_ok()),
        r matches Err(e) ==> e is InvalidGrammar,
{
    let n = grammar.productions.len();
    proof {
        assert(grammar@.num() == grammar.productions@.len());
    }
    let mut i: usize = 0;
    while i < n
        invariant
            0 <= i <= n,
            n == grammar.productions@.len(),
            grammar@.num() == n,
            forall|j: int|
                0 <= j < i && #[trigger] grammar@.rhs(j).len() > 0 ==> grammar@.rhs(j)[0]
                    != grammar@.lhs(j),
        decreases n - i,
    {
        proof {
            assert(grammar@.prods[i as int] == (grammar.productions@[i as int].0, opt_chars_view(
                &grammar.productions@[i as int].1,
            )));
        }
        let bad: bool;
        match &grammar.productions[i].1 {
            Some(v) => {
                bad = v.len() > 0 && v[0] == grammar.productions[i].0;
                proof {
                    assert(grammar@.rhs(i as int) == v@);
                    assert(bad == (grammar@.rhs(i as int).len() > 0 && grammar@.rhs(i as int)[0]
                        == grammar@.lhs(i as int)));
                }
            },
            None => {
                bad = false;
                proof {
                    assert(grammar@.rhs(i as int).len() == 0);
                }
            },
        }
        if bad {
            return Err(LlkError::InvalidGrammar("self left-recursion in production".to_owned()));
        }
        i = i + 1;
    }
    let mut i2: usize = 0;
    while i2 < n
        invariant
            0 <= i2 <= n,
            n == grammar.productions@.len(),
            grammar@.num() == n,
            forall|a: int, b: int|
                #![trigger grammar@.rhs(a), grammar@.rhs(b)]
                0 <= a < i2 && 0 <= b < n && grammar@.rhs(a).len() > 0 && grammar@.is_nterm(
                    grammar@.rhs(a)[0],
                ) && grammar@.lhs(b) == grammar@.rhs(a)[0] && grammar@.rhs(b).len() > 0
                    ==> grammar@.rhs(b)[0] != grammar@.lhs(a),
        decreases n - i2,
    {
        proof {
            assert(grammar@.prods[i2 as int] == (grammar.productions@[i2 as int].0, opt_chars_view(
                &grammar.productions@[i2 as int].1,
            )));
        }
        let head: Option<char> = match &grammar.productions[i2].1 {
            Some(v) => if v.len() > 0 {
                Some(v[0])
            } else {
                None
            },
            None => None,
        };
        match head {
            Some(b_sym) if grammar.is_nterm(b_sym) => {
                proof {
                    assert(grammar@.rhs(i2 as int).len() > 0 && grammar@.rhs(i2 as int)[0]
                        == b_sym);
                }
                let mut j: usize = 0;
                while j < n
                    invariant
                        0 <= j <= n,
                        0 <= i2 < n,
                        n == grammar.productions@.len(),
                        grammar@.num() == n,
                        grammar@.rhs(i2 as int).len() > 0,
                        grammar@.rhs(i2 as int)[0] == b_sym,
                        grammar@.is_nterm(b_sym),
                        forall|b: int|
                            0 <= b < j && grammar@.lhs(b) == b_sym && #[trigger] grammar@.rhs(
                                b,
                            ).len() > 0 ==> grammar@.rhs(b)[0] != grammar@.lhs(i2 as int),
                    decreases n - j,
                {
                    proof {
                        assert(grammar@.prods[j as int] == (grammar.productions@[j as int].0,
                        opt_chars_view(&grammar.productions@[j as int].1)));
                    }
                    let hit: bool;
                    match &grammar.productions[j].1 {
                        Some(w) => {
                            hit = grammar.productions[j].0 == b_sym && w.len() > 0 && w[0]
                                == grammar.productions[i2].0;
                            proof {
                                assert(grammar@.rhs(j as int) == w@);
                                assert(grammar@.prods[i2 as int] == (
                                grammar.productions@[i2 as int].0, opt_chars_view(
                                    &grammar.productions@[i2 as int].1,
                                )));
                                assert(hit == (grammar@.lhs(j as int) == b_sym && grammar@.rhs(
                                    j as int,
                                ).len() > 0 && grammar@.rhs(j as int)[0] == grammar@.lhs(
                                    i2 as int,
                                )));
                            }
                        },
                        None => {
                            hit = false;
                            proof {
                                assert(grammar@.rhs(j as int).len() == 0);
                            }
                        },
                    }
                    if hit {
                        proof {
                            assert(!grammar@.no_cross_lr());
                        }
                        return Err(
                            LlkError::InvalidGrammar(
                                "cross left-recursion in productions".to_owned(),
                            ),
                        );
                    }
                    j = j + 1;
                }
            },
            _ => {},
        }
        proof {
            assert forall|a: int, b: int|
                #![trigger grammar@.rhs(a), grammar@.rhs(b)]
                0 <= a < i2 + 1 && 0 <= b < n && grammar@.rhs(a).len() > 0 && grammar@.is_nterm(
                    grammar@.rhs(a)[0],
                ) && grammar@.lhs(b) == grammar@.rhs(a)[0] && grammar@.rhs(b).len() > 0 implies grammar@.rhs(
                b,
            )[0] != grammar@.lhs(a) by {
                if a == i2 {
                    assert(head == Some(grammar@.rhs(i2 as int)[0]));
                }
            }
        }
        i2 = i2 + 1;
    }
    let reachable = get_reachable_nterms(grammar);
    let resolvable = get_resolvable_nterms(grammar);
    let mut i3: usize = 0;
    while i3 < grammar.nterm_symbols.len()
        invariant
            0 <= i3 <= grammar.nterm_symbols@.len(),
            grammar@.nterms == grammar.nterm_symbols@,
            forall|c: char| reachable@.contains(c) <==> grammar@.reachable().contains(c),
            forall|c: char| resolvable@.contains(c) <==> grammar@.resolvable().contains(c),
            forall|j: int|
                0 <= j < i3 ==> grammar@.reachable().contains(#[trigger] grammar.nterm_symbols@[j])
                    && grammar@.resolvable().contains(grammar.nterm_symbols@[j]),
        decreases grammar.nterm_symbols@.len() - i3,
    {
        let c = grammar.nterm_symbols[i3];
        if !contains_char(&reachable, c) || !contains_char(&resolvable, c) {
            proof {
                assert(grammar@.nterms.contains(c));
                assert(!grammar@.reach_resolv_ok());
            }
            return Err(
                LlkError::InvalidGrammar(
                    "unreachable or unresolvable non-terminal symbols".to_owned(),
                ),
            );
        }
        i3 = i3 + 1;
    }
    proof {
        assert forall|c: char| #[trigger] grammar@.nterms.contains(c) implies grammar@.reachable().contains(
            c,
        ) && grammar@.resolvable().contains(c) by {
            let j = choose|j: int|
                0 <= j < grammar@.nterms.len() && #[trigger] grammar@.nterms[j] == c;
            assert(grammar.nterm_symbols@[j] == c);
        }
    }
    let mut pi: usize = 0;
    while pi < n
        invariant
            0 <= pi <= n,
            n == grammar.productions@.len(),
            grammar@.num() == n,
            forall|a: int, b: int|
                #![trigger grammar@.choice_set(a), grammar@.choice_set(b)]
                0 <= a < pi && a < b < n && grammar@.lhs(a) == grammar@.lhs(b)
                    ==> grammar@.choice_set(a).disjoint(grammar@.choice_set(b)),
        decreases n - pi,
    {
        let choise_a = grammar.choise(pi);
        let mut pj: usize = pi + 1;
        while pj < n
            invariant
                0 <= pi < pj <= n,
                n == grammar.productions@.len(),
                grammar@.num() == n,
                chars_set(choise_a@) == grammar@.choice_set(pi as int),
                forall|b: int|
                    pi < b < pj && grammar@.lhs(pi as int) == grammar@.lhs(b)
                        ==> grammar@.choice_set(pi as int).disjoint(#[trigger] grammar@.choice_set(b)),
            decreases n - pj,
        {
            proof {
                assert(grammar@.prods[pi as int] == (grammar.productions@[pi as int].0,
                opt_chars_view(&grammar.productions@[pi as int].1)));
                assert(grammar@.prods[pj as int] == (grammar.productions@[pj as int].0,
                opt_chars_view(&grammar.productions@[pj as int].1)));
            }
            if grammar.productions[pi].0 == grammar.productions[pj].0 {
                let choise_b = grammar.choise(pj);
                let mut ci: usize = 0;
                let mut collide = false;
                while ci < choise_a.len()
                    invariant
                        0 <= ci <= choise_a@.len(),
                        chars_set(choise_a@) == grammar@.choice_set(pi as int),
                        chars_set(choise_b@) == grammar@.choice_set(pj as int),
                        collide ==> !grammar@.choice_set(pi as int).disjoint(
                            grammar@.choice_set(pj as int),
                        ),
                        !collide ==> forall|j2: int|
                            0 <= j2 < ci ==> !grammar@.choice_set(pj as int).contains(
                                #[trigger] choise_a@[j2]@,
                            ),
                    decreases choise_a@.len() - ci,
                {
                    if contains_chars_vec(&choise_b, &choise_a[ci]) {
                        collide = true;
                        proof {
                            assert(chars_set(choise_a@).contains(choise_a@[ci as int]@));
                            assert(grammar@.choice_set(pi as int).contains(choise_a@[ci as int]@)
                                && grammar@.choice_set(pj as int).contains(
                                choise_a@[ci as int]@,
                            ));
                        }
                    }
                    ci = ci + 1;
                }
                if collide {
                    proof {
                        assert(!grammar@.llk_ok());
                    }
                    return Err(
                        LlkError::InvalidGrammar(
                            "grammar rules do not define an LL(k) grammar".to_owned(),
                        ),
                    );
                }
                proof {
                    assert forall|t: Seq<char>|
                        !(grammar@.choice_set(pi as int).contains(t) && grammar@.choice_set(
                            pj as int,
                        ).contains(t)) by {
                        if grammar@.choice_set(pi as int).contains(t) {
                            let j2 = choose|j2: int|
                                0 <= j2 < choise_a@.len() && #[trigger] choise_a@[j2]@ == t;
                        }
                    }
                    assert(grammar@.choice_set(pi as int).disjoint(grammar@.choice_set(pj as int)));
                }
            }
            pj = pj + 1;
        }
        pi = pi + 1;
    }
    Ok(())
}

/// Runs the whole validation: rules one to three and then the LL(k)
/// conditions, in order, stopping at the first violation.
pub fn assert_grammar(grammar: &LlkGrammar) -> (r: Result<(), LlkError>)
    ensures
        r is Ok <==> grammar@.valid(),
        r matches Err(e) ==> e is InvalidGrammar,
{
    match assert_symbols(grammar) {
        Err(e) => {
            return Err(e);
        },
        Ok(()) => {},
    }
    match assert_productions(grammar) {
        Err(e) => {
            return Err(e);
        },
        Ok(()) => {},
    }
    match assert_lookahead(grammar) {
        Err(e) => {
            return Err(e);
        },
        Ok(()) => {},
    }
    match assert_llk_conditions(grammar) {
        Err(e) => {
            return Err(e);
        },
        Ok(()) => {},
    }
    Ok(())
}

/// Checks validation rule one: non-empty disjoint alphabets and a
/// non-terminal start symbol.
pub fn assert_symbols(grammar: &LlkGrammar) -> (r: Result<(), LlkError>)
    ensures
        r is Ok <==> grammar@.symbols_ok(),
        r matches Err(e) ==> e is InvalidGrammar,
{
    if grammar.term_symbols.len() == 0 {
        return Err(LlkError::InvalidGrammar("terminal symbols set is empty".to_owned()));
    }
    if grammar.nterm_symbols.len() == 0 {
        return Err(LlkError::InvalidGrammar("non-terminal symbols set is empty".to_owned()));
    }
    if !contains_char(&grammar.nterm_symbols, grammar.start_symbol) {
        return Err(LlkError::InvalidGrammar("start symbol is not non-terminal".to_owned()));
    }
    if contains_char(&grammar.term_symbols, LLK_EOF) || contains_char(
        &grammar.nterm_symbols,
        LLK_EOF,
    ) {
        return Err(
            LlkError::InvalidGrammar("the reserved end marker is in an alphabet".to_owned()),
        );
    }
    let mut i: usize = 0;
    while i < grammar.term_symbols.len()
        invariant
            0 <= i <= grammar.term_symbols@.len(),
            grammar@.terms == grammar.term_symbols@,
            grammar@.nterms == grammar.nterm_symbols@,
            forall|j: int|
                0 <= j < i ==> !grammar@.nterms.contains(#[trigger] grammar.term_symbols@[j]),
        decreases grammar.term_symbols@.len() - i,
    {
        if contains_char(&grammar.nterm_symbols, grammar.term_symbols[i]) {
            return Err(
                LlkError::InvalidGrammar(
                    "terminal and non-terminal symbols sets intersect".to_owned(),
                ),
            );
        }
        i = i + 1;
    }
    proof {
        assert forall|c: char| !(grammar@.terms.contains(c) && #[trigger] grammar@.nterms.contains(
            c,
        )) by {
            if grammar@.terms.contains(c) {
                let j = choose|j: int|
                    0 <= j < grammar@.terms.len() && #[trigger] grammar@.terms[j] == c;
                assert(grammar.term_symbols@[j] == c);
            }
        }
    }
    Ok(())
}

/// Checks validation rule three: the lookahead lies in the accepted
/// range.
pub fn assert_lookahead(grammar: &LlkGrammar) -> (r: Result<(), LlkError>)
    ensures
        r is Ok <==> grammar@.lookahead_ok(),
        r matches Err(e) ==> e is InvalidGrammar,
{
    if grammar.lookahead < LLK_MIN_LOOKAHEAD || grammar.lookahead > LLK_MAX_LOOKAHEAD {
        return Err(LlkError::InvalidGrammar("illegal lookahead value".to_owned()));
    }
    Ok(())
}

/// Checks validation rule two: productions exist, their left-hand
/// sides are non-terminals, their derivations stay in the alphabets,
/// the start symbol derives something, and no non-terminal is unused.
pub fn assert_productions(grammar: &LlkGrammar) -> (r: Result<(), LlkError>)
    ensures
        r is Ok <==> grammar@.productions_ok(),
        r matches Err(e) ==> e is InvalidGrammar,
{
    let n = grammar.productions.len();
    if n == 0 {
        return Err(LlkError::InvalidGrammar("productions list is empty".to_owned()));
    }
    proof {
        assert(grammar@.num() == grammar.productions@.len());
    }
    let mut i: usize = 0;
    while i < n
        invariant
            0 <= i <= n,
            n == grammar.productions@.len(),
            grammar@.num() == n,
            forall|j: int| 0 <= j < i ==> grammar@.is_nterm(#[trigger] grammar@.lhs(j)),
        decreases n - i,
    {
        if !grammar.is_nterm(grammar.productions[i].0) {
            proof {
                assert(grammar@.prods[i as int] == (grammar.productions@[i as int].0,
                opt_chars_view(&grammar.productions@[i as int].1)));
                assert(!grammar@.is_nterm(grammar@.lhs(i as int)));
            }
            return Err(
                LlkError::InvalidGrammar(
                    "production LHS is not a non-terminal symbol".to_owned(),
                ),
            );
        }
        proof {
            assert(grammar@.prods[i as int] == (grammar.productions@[i as int].0, opt_chars_view(
                &grammar.productions@[i as int].1,
            )));
        }
        i = i + 1;
    }
    let mut i2: usize = 0;
    while i2 < n
        invariant
            0 <= i2 <= n,
            n == grammar.productions@.len(),
            grammar@.num() == n,
            forall|j: int, j2: int|
                0 <= j < i2 && 0 <= j2 < grammar@.rhs(j).len() ==> grammar@.terms.contains(
                    #[trigger] grammar@.rhs(j)[j2],
                ) || grammar@.nterms.contains(grammar@.rhs(j)[j2]),
        decreases n - i2,
    {
        proof {
            assert(grammar@.prods[i2 as int] == (grammar.productions@[i2 as int].0, opt_chars_view(
                &grammar.productions@[i2 as int].1,
            )));
        }
        match &grammar.productions[i2].1 {
            Some(v) => {
                let mut j: usize = 0;
                while j < v.len()
                    invariant
                        0 <= j <= v@.len(),
                        0 <= i2 < grammar@.num(),
                        v@ == grammar@.rhs(i2 as int),
                        grammar@.terms == grammar.term_symbols@,
                        grammar@.nterms == grammar.nterm_symbols@,
                        forall|j2: int|
                            0 <= j2 < j ==> grammar@.terms.contains(
                                #[trigger] grammar@.rhs(i2 as int)[j2],
                            ) || grammar@.nterms.contains(grammar@.rhs(i2 as int)[j2]),
                    decreases v@.len() - j,
                {
                    if !contains_char(&grammar.term_symbols, v[j]) && !contains_char(
                        &grammar.nterm_symbols,
                        v[j],
                    ) {
                        return Err(
                            LlkError::InvalidGrammar(
                                "unknown symbol in production RHS".to_owned(),
                            ),
                        );
                    }
                    j = j + 1;
                }
            },
            None => {},
        }
        i2 = i2 + 1;
    }
    let mut has_start = false;
    let mut i3: usize = 0;
    while i3 < n
        invariant
            0 <= i3 <= n,
            n == grammar.productions@.len(),
            grammar@.num() == n,
            has_start ==> exists|j: int|
                0 <= j < grammar@.num() && #[trigger] grammar@.lhs(j) == grammar@.start,
            !has_start ==> forall|j: int| 0 <= j < i3 ==> #[trigger] grammar@.lhs(j)
                != grammar@.start,
        decreases n - i3,
    {
        proof {
            assert(grammar@.prods[i3 as int] == (grammar.productions@[i3 as int].0, opt_chars_view(
                &grammar.productions@[i3 as int].1,
            )));
        }
        if grammar.productions[i3].0 == grammar.start_symbol {
            has_start = true;
            proof {
                assert(grammar@.lhs(i3 as int) == grammar@.start);
            }
        }
        i3 = i3 + 1;
    }
    if !has_start {
        return Err(LlkError::InvalidGrammar("no production for start symbol".to_owned()));
    }
    let mut i4: usize = 0;
    while i4 < grammar.nterm_symbols.len()
        invariant
            0 <= i4 <= grammar.nterm_symbols@.len(),
            n == grammar.productions@.len(),
            grammar@.num() == n,
            grammar@.nterms == grammar.nterm_symbols@,
            forall|j: int|
                0 <= j < i4 ==> exists|j2: int|
                    0 <= j2 < grammar@.num() && #[trigger] grammar@.lhs(j2)
                        == #[trigger] grammar.nterm_symbols@[j],
        decreases grammar.nterm_symbols@.len() - i4,
    {
        let c = grammar.nterm_symbols[i4];
        let mut found = false;
        let mut j: usize = 0;
        while j < n
            invariant
                0 <= j <= n,
                n == grammar.productions@.len(),
                grammar@.num() == n,
                found ==> exists|j2: int| 0 <= j2 < grammar@.num() && #[trigger] grammar@.lhs(j2)
                    == c,
                !found ==> forall|j2: int| 0 <= j2 < j ==> #[trigger] grammar@.lhs(j2) != c,
            decreases n - j,
        {
            proof {
                assert(grammar@.prods[j as int] == (grammar.productions@[j as int].0,
                opt_chars_view(&grammar.productions@[j as int].1)));
            }
            if grammar.productions[j].0 == c {
                found = true;
                proof {
                    assert(grammar@.lhs(j as int) == c);
                }
            }
            j = j + 1;
        }
        if !found {
            proof {
                assert(grammar@.nterms.contains(c));
            }
            return Err(LlkError::InvalidGrammar("unused non-terminal symbol".to_owned()));
        }
        i4 = i4 + 1;
    }
    proof {
        assert forall|c: char| #[trigger] grammar@.nterms.contains(c) implies exists|j2: int|
            0 <= j2 < grammar@.num() && #[trigger] grammar@.lhs(j2) == c by {
            let j = choose|j: int|
                0 <= j < grammar@.nterms.len() && #[trigger] grammar@.nterms[j] == c;
            assert(grammar.nterm_symbols@[j] == c);
        }
    }
    Ok(())
}

/// True iff `visited` holds a production with the given left-hand
/// side and (non-epsilon) derivation.
fn contains_prod(visited: &Vec<(char, Option<Vec<char>>)>, lhs: char, rhs: &Vec<char>) -> (r:
    bool)
    ensures
        r == pv_set(visited@).contains((lhs, Some(rhs@))),
{
    let mut j: usize = 0;
    while j < visited.len()
        invariant
            0 <= j <= visited@.len(),
            forall|j2: int| 0 <= j2 < j ==> #[trigger] prod_view(&visited@[j2]) != (lhs, Some(
                rhs@,
            )),
        decreases visited@.len() - j,
    {
        let hit = match &visited[j].1 {
            Some(w) => visited[j].0 == lhs && eq_chars(w, rhs),
            None => false,
        };
        if hit {
            proof {
                assert(prod_view(&visited@[j as int]) == (lhs, Some(rhs@)));
            }
            return true;
        }
        proof {
            assert(prod_view(&visited@[j as int]) != (lhs, Some(rhs@)));
        }
        j = j + 1;
    }
    proof {
        if pv_set(visited@).contains((lhs, Some(rhs@))) {
            let j2 = choose|j2: int|
                0 <= j2 < visited@.len() && #[trigger] prod_view(&visited@[j2]) == (lhs, Some(
                    rhs@,
                ));
            assert(false);
        }
    }
    false
}

impl LlkGrammar {
    /// The union of the FIRST sets of the suffixes after each
    /// non-final occurrence of `a` in `rhs`.
    fn suffixes_first_exec(&self, rhs: &Vec<char>, a: char, nv: &Vec<char>) -> (r: Vec<
        Option<Vec<char>>,
    >)
        requires
            forall|c: char| nv@.contains(c) <==> self@.nullable(c),
        ensures
            opt_chars_set(r@) == self@.suffixes_first(rhs@, a),
            distinct_opts(r@),
    {
        let mut acc: Vec<Option<Vec<char>>> = Vec::new();
        proof {
            assert(opt_chars_set(acc@) =~= Set::<Option<Seq<char>>>::empty());
        }
        if rhs.len() > 0 {
            let m = rhs.len() - 1;
            let mut j: usize = 0;
            while j < m
                invariant
                    0 <= j <= m,
                    m == rhs@.len() - 1,
                    forall|c: char| nv@.contains(c) <==> self@.nullable(c),
                    distinct_opts(acc@),
                    opt_chars_set(acc@) == Set::new(
                        |x: Option<Seq<char>>|
                            exists|j2: int|
                                0 <= j2 < j && #[trigger] rhs@[j2] == a && self@.first_sets(
                                    rhs@.skip(j2 + 1),
                                ).contains(x),
                    ),
                decreases m - j,
            {
                let ghost prev = opt_chars_set(acc@);
                if rhs[j] == a {
                    let suffix = skip_chars(rhs, j + 1);
                    let fs = self.first_chars(&suffix, nv);
                    push_all_opts(&mut acc, &fs);
                    proof {
                        let upto1 = Set::new(
                            |x: Option<Seq<char>>|
                                exists|j2: int|
                                    0 <= j2 < j + 1 && #[trigger] rhs@[j2] == a && self@.first_sets(
                                        rhs@.skip(j2 + 1),
                                    ).contains(x),
                        );
                        assert forall|x: Option<Seq<char>>| #[trigger] upto1.contains(x) implies prev.union(
                            opt_chars_set(fs@),
                        ).contains(x) by {
                            let j2 = choose|j2: int|
                                0 <= j2 < j + 1 && #[trigger] rhs@[j2] == a && self@.first_sets(
                                    rhs@.skip(j2 + 1),
                                ).contains(x);
                            if j2 < j {
                                assert(prev.contains(x));
                            }
                        }
                        assert forall|x: Option<Seq<char>>|
                            prev.union(opt_chars_set(fs@)).contains(x) implies #[trigger] upto1.contains(
                            x,
                        ) by {
                            if prev.contains(x) {
                                let j2 = choose|j2: int|
                                    0 <= j2 < j && #[trigger] rhs@[j2] == a && self@.first_sets(
                                        rhs@.skip(j2 + 1),
                                    ).contains(x);
                            } else {
                                assert(rhs@[j as int] == a && self@.first_sets(
                                    rhs@.skip(j + 1),
                                ).contains(x));
                            }
                        }
                        assert(opt_chars_set(acc@) =~= upto1);
                    }
                } else {
                    proof {
                        let upto1 = Set::new(
                            |x: Option<Seq<char>>|
                                exists|j2: int|
                                    0 <= j2 < j + 1 && #[trigger] rhs@[j2] == a && self@.first_sets(
                                        rhs@.skip(j2 + 1),
                                    ).contains(x),
                        );
                        assert forall|x: Option<Seq<char>>| #[trigger] upto1.contains(x) implies prev.contains(
                            x,
                        ) by {
                            let j2 = choose|j2: int|
                                0 <= j2 < j + 1 && #[trigger] rhs@[j2] == a && self@.first_sets(
                                    rhs@.skip(j2 + 1),
                                ).contains(x);
                            assert(j2 < j);
                        }
                        assert forall|x: Option<Seq<char>>| #[trigger] prev.contains(x) implies upto1.contains(
                            x,
                        ) by {
                            let j2 = choose|j2: int|
                                0 <= j2 < j && #[trigger] rhs@[j2] == a && self@.first_sets(
                                    rhs@.skip(j2 + 1),
                                ).contains(x);
                        }
                        assert(opt_chars_set(acc@) =~= upto1);
                    }
                }
                j = j + 1;
            }
        }
        proof {
            assert(opt_chars_set(acc@) =~= self@.suffixes_first(rhs@, a));
        }
        acc
    }

    /// The walk of `follow_rec` over the productions from index `i`,
    /// sharing the growing visited list.
    fn follow_rec_exec(
        &self,
        a: char,
        visited: &mut Vec<(char, Option<Vec<char>>)>,
        i: usize,
        nv: &Vec<char>,
        fuel: Ghost<nat>,
    ) -> (r: Vec<Vec<char>>)
        requires
            forall|c: char| nv@.contains(c) <==> self@.nullable(c),
            fuel@ >= self@.unvisited(pv_set(old(visited)@)),
            i <= self.productions@.len(),
        ensures
            chars_set(r@) == self@.follow_rec(a, pv_set(old(visited)@), i as int, fuel@).0,
            pv_set(final(visited)@) == self@.follow_rec(a, pv_set(old(visited)@), i as int, fuel@).1,
            distinct_chars(r@),
        decreases self@.unvisited(pv_set(visited@)), self.productions@.len() - i,
    {
        proof {
            assert(self@.num() == self.productions@.len());
        }
        if i == self.productions.len() {
            let r: Vec<Vec<char>> = Vec::new();
            proof {
                assert(chars_set(r@) =~= Set::<Seq<char>>::empty());
            }
            return r;
        }
        proof {
            assert(self@.prods[i as int] == (self.productions@[i as int].0, opt_chars_view(
                &self.productions@[i as int].1,
            )));
        }
        let is_eps_prod = self.productions[i].1.is_none();
        if is_eps_prod {
            return self.follow_rec_exec(a, visited, i + 1, nv, fuel);
        }
        let has_a = match &self.productions[i].1 {
            Some(v) => contains_char(v, a),
            None => false,
        };
        if !has_a {
            return self.follow_rec_exec(a, visited, i + 1, nv, fuel);
        }
        let p0 = self.productions[i].0;
        let rhs_copy = match &self.productions[i].1 {
            Some(v) => copy_chars(v),
            None => Vec::new(),
        };
        proof {
            assert(rhs_copy@ == self@.rhs(i as int));
            assert(self@.prods[i as int].1 == Some(rhs_copy@));
            assert(rhs_copy@.contains(a));
        }
        let sfs = self.suffixes_first_exec(&rhs_copy, a, nv);
        let ends = rhs_copy[rhs_copy.len() - 1] == a;
        proof {
            assert(rhs_copy@.len() > 0);
            assert(ends == (rhs_copy@.last() == a));
        }
        let has_none = contains_opt_chars(&sfs, &None);
        let in_visited = contains_prod(visited, p0, &rhs_copy);
        if p0 != a && !in_visited && (ends || has_none) {
            let ghost v_before = pv_set(visited@);
            let pcopy = (p0, Some(copy_chars(&rhs_copy)));
            proof {
                assert(prod_view(&pcopy) == self@.prods[i as int]);
                assert(self@.prods.contains(self@.prods[i as int]));
                assert(self@.prods.to_set().contains(self@.prods[i as int]));
                lemma_unvisited_insert(self@, v_before, prod_view(&pcopy));
            }
            visited.push(pcopy);
            proof {
                lemma_pv_set_push(old(visited)@, visited@[visited@.len() - 1]);
                assert(prod_view(&visited@[visited@.len() - 1]) == self@.prods[i as int]);
                assert(pv_set(visited@) == v_before.insert(self@.prods[i as int]));
            }
            let ghost v_inserted = pv_set(visited@);
            let sub = self.follow_rec_exec(p0, visited, 0, nv, Ghost((fuel@ - 1) as nat));
            proof {
                lemma_follow_visited_grows(self@, p0, v_inserted, 0, (fuel@ - 1) as nat);
                lemma_unvisited_subset(self@, v_before, pv_set(visited@));
            }
            let rest = self.follow_rec_exec(a, visited, i + 1, nv, fuel);
            let mut out = sub;
            push_all_chars(&mut out, &rest);
            push_nonnull(&mut out, &sfs);
            proof {
                let spec_pair = self@.follow_rec(a, v_before, i as int, fuel@);
                let sub_pair = self@.follow_rec(p0, v_before.insert(self@.prods[i as int]), 0, (
                fuel@ - 1) as nat);
                let rest_pair = self@.follow_rec(a, sub_pair.1, i + 1, fuel@);
                assert(spec_pair.0 == sub_pair.0.union(rest_pair.0).union(
                    Set::new(
                        |t: Seq<char>| self@.suffixes_first(rhs_copy@, a).contains(Some(t)),
                    ),
                ));
                assert(chars_set(out@) =~= spec_pair.0);
            }
            out
        } else {
            let rest = self.follow_rec_exec(a, visited, i + 1, nv, fuel);
            let mut out = rest;
            push_nonnull(&mut out, &sfs);
            proof {
                let spec_pair = self@.follow_rec(a, pv_set(old(visited)@), i as int, fuel@);
                let rest_pair = self@.follow_rec(a, pv_set(old(visited)@), i + 1, fuel@);
                assert(spec_pair.0 == rest_pair.0.union(
                    Set::new(
                        |t: Seq<char>| self@.suffixes_first(rhs_copy@, a).contains(Some(t)),
                    ),
                ));
                assert(chars_set(out@) =~= spec_pair.0);
            }
            out
        }
    }

    /// The right-hand side of production `i` as a fresh vector, the
    /// empty vector for an epsilon production.
    pub(crate) fn rhs_vec(&self, i: usize) -> (r: Vec<char>)
        requires
            i < self.productions@.len(),
        ensures
            r@ == self@.rhs(i as int),
    {
        proof {
            assert(self@.prods[i as int] == (self.productions@[i as int].0, opt_chars_view(
                &self.productions@[i as int].1,
            )));
        }
        match &self.productions[i].1 {
            Some(v) => copy_chars(v),
            None => Vec::new(),
        }
    }

    /// The terminal alphabet of this grammar.
    pub fn terminals(&self) -> (r: &Vec<char>)
        ensures
            r@ == self@.terms,
    {
        &self.term_symbols
    }

    /// The non-terminal alphabet of this grammar.
    pub fn nterminals(&self) -> (r: &Vec<char>)
        ensures
            r@ == self@.nterms,
    {
        &self.nterm_symbols
    }

    /// Production `i` in caller form: its non-terminal and its
    /// derivation string, absent for epsilon.
    pub fn production_at(&self, i: usize) -> (r: LlkProduction)
        requires
            i < self@.num(),
        ensures
            r.0 == self@.lhs(i as int),
            opt_str_view(&r.1) == self@.prods[i as int].1,
    {
        proof {
            assert(self@.prods[i as int] == (self.productions@[i as int].0, opt_chars_view(
                &self.productions@[i as int].1,
            )));
        }
        let lhs = self.productions[i].0;
        let rhs: Option<String> = match &self.productions[i].1 {
            None => None,
            Some(v) => Some(crate::util::chars_to_string(v)),
        };
        (lhs, rhs)
    }

    /// The number of productions of this grammar.
    pub fn num_productions(&self) -> (r: usize)
        ensures
            r == self@.num(),
    {
        self.productions.len()
    }

    /// The left-hand side of production `i`.
    pub fn lhs_at(&self, i: usize) -> (r: char)
        requires
            i < self@.num(),
        ensures
            r == self@.lhs(i as int),
    {
        proof {
            assert(self@.prods[i as int] == (self.productions@[i as int].0, opt_chars_view(
                &self.productions@[i as int].1,
            )));
        }
        self.productions[i].0
    }

    /// The start symbol of this grammar.
    pub fn start_sym(&self) -> (r: char)
        ensures
            r == self@.start,
    {
        self.start_symbol
    }

    /// The lookahead length of this grammar.
    pub fn lookahead_len(&self) -> (r: usize)
        ensures
            r as nat == self@.k,
    {
        self.lookahead
    }

    /// The CHOICE set of production `i`: the lookahead windows on
    /// which the predictive parser commits to this production.
    pub(crate) fn choise(&self, i: usize) -> (r: Vec<Vec<char>>)
        requires
            i < self.productions@.len(),
        ensures
            chars_set(r@) == self@.choice_set(i as int),
            distinct_chars(r@),
    {
        let nv = self.compute_nullable();
        let rhs_vec = self.rhs_vec(i);
        let fs = self.first_chars(&rhs_vec, &nv);
        let ghost fset = eps_to_empty(self@.first_sets(self@.rhs(i as int)));
        let mut fvec: Vec<Vec<char>> = Vec::new();
        proof {
            assert(chars_set(fvec@) =~= Set::<Seq<char>>::empty());
        }
        let mut fi: usize = 0;
        while fi < fs.len()
            invariant
                0 <= fi <= fs@.len(),
                distinct_chars(fvec@),
                chars_set(fvec@) == eps_to_empty(opt_chars_set(fs@.take(fi as int))),
            decreases fs@.len() - fi,
        {
            let ghost before = chars_set(fvec@);
            match &fs[fi] {
                Some(cs) => {
                    let c = copy_chars(cs);
                    push_unique_chars(&mut fvec, c);
                },
                None => {
                    let e: Vec<char> = Vec::new();
                    push_unique_chars(&mut fvec, e);
                },
            }
            proof {
                let upto = eps_to_empty(opt_chars_set(fs@.take(fi as int)));
                let upto1 = eps_to_empty(opt_chars_set(fs@.take(fi + 1 as int)));
                assert forall|u: Seq<char>| #[trigger] upto1.contains(u) implies chars_set(
                    fvec@,
                ).contains(u) by {
                    if opt_chars_set(fs@.take(fi + 1 as int)).contains(Some(u)) {
                        let j2 = choose|j2: int|
                            0 <= j2 < fi + 1 && #[trigger] opt_chars_view(
                                &fs@.take(fi + 1 as int)[j2],
                            ) == Some(u);
                        if j2 < fi {
                            assert(opt_chars_view(&fs@.take(fi as int)[j2]) == Some(u));
                            assert(upto.contains(u));
                        } else {
                            assert(opt_chars_view(&fs@[fi as int]) == Some(u));
                        }
                    } else {
                        assert(u.len() == 0);
                        assert(u =~= Seq::<char>::empty());
                        let j2 = choose|j2: int|
                            0 <= j2 < fi + 1 && #[trigger] opt_chars_view(
                                &fs@.take(fi + 1 as int)[j2],
                            ) == None::<Seq<char>>;
                        if j2 < fi {
                            assert(opt_chars_view(&fs@.take(fi as int)[j2]) == None::<Seq<char>>);
                            assert(upto.contains(u));
                        } else {
                            assert(opt_chars_view(&fs@[fi as int]) == None::<Seq<char>>);
                        }
                    }
                }
                assert forall|u: Seq<char>| #[trigger] chars_set(fvec@).contains(u) implies upto1.contains(
                    u,
                ) by {
                    if before.contains(u) {
                        if opt_chars_set(fs@.take(fi as int)).contains(Some(u)) {
                            let j2 = choose|j2: int|
                                0 <= j2 < fi && #[trigger] opt_chars_view(
                                    &fs@.take(fi as int)[j2],
                                ) == Some(u);
                            assert(opt_chars_view(&fs@.take(fi + 1 as int)[j2]) == Some(u));
                        } else {
                            let j2 = choose|j2: int|
                                0 <= j2 < fi && #[trigger] opt_chars_view(
                                    &fs@.take(fi as int)[j2],
                                ) == None::<Seq<char>>;
                            assert(opt_chars_view(&fs@.take(fi + 1 as int)[j2]) == None::<
                                Seq<char>,
                            >);
                        }
                    } else {
                        assert(opt_chars_view(&fs@.take(fi + 1 as int)[fi as int])
                            == opt_chars_view(&fs@[fi as int]));
                    }
                }
                assert(chars_set(fvec@) =~= upto1);
            }
            fi = fi + 1;
        }
        proof {
            assert(fs@.take(fs@.len() as int) =~= fs@);
            assert(chars_set(fvec@) =~= fset);
        }
        let p0 = self.productions[i].0;
        proof {
            assert(self@.prods[i as int] == (self.productions@[i as int].0, opt_chars_view(
                &self.productions@[i as int].1,
            )));
            assert(p0 == self@.lhs(i as int));
        }
        let nv2 = self.compute_nullable();
        let mut visited: Vec<(char, Option<Vec<char>>)> = Vec::new();
        proof {
            assert(pv_set(visited@) =~= Set::<(char, Option<Seq<char>>)>::empty());
            self@.prods.lemma_cardinality_of_set();
            assert(self@.prods.to_set().difference(Set::empty()) =~= self@.prods.to_set());
        }
        let lvec = self.follow_rec_exec(p0, &mut visited, 0, &nv2, Ghost(self@.prods.len()));
        let ghost lset = self@.follow_set(p0);
        if lvec.len() == 0 {
            proof {
                reveal(GrammarModel::choice_set);
                assert forall|u: Seq<char>| !(#[trigger] lset.contains(u)) by {
                    if lset.contains(u) {
                        let j2 = choose|j2: int| 0 <= j2 < lvec@.len() && #[trigger] lvec@[j2]@
                            == u;
                    }
                }
                assert(lset =~= Set::<Seq<char>>::empty());
                assert(lset.is_empty());
            }
            return fvec;
        }
        proof {
            assert(lset.contains(lvec@[0]@));
            assert(!lset.is_empty());
        }
        let mut out: Vec<Vec<char>> = Vec::new();
        proof {
            assert(chars_set(out@) =~= Set::<Seq<char>>::empty());
        }
        let ghost rows = |b: int|
            Set::new(
                |w: Seq<char>|
                    exists|x: int, y: int|
                        #![trigger fvec@[x], lvec@[y]]
                        0 <= x < b && 0 <= y < lvec@.len() && w == self@.trunc_k(
                            fvec@[x]@ + lvec@[y]@,
                        ),
            );
        let mut x: usize = 0;
        while x < fvec.len()
            invariant
                0 <= x <= fvec@.len(),
                lvec@.len() > 0,
                self@.k == self.lookahead as nat,
                distinct_chars(out@),
                rows == (|b: int|
                    Set::new(
                        |w: Seq<char>|
                            exists|x2: int, y2: int|
                                #![trigger fvec@[x2], lvec@[y2]]
                                0 <= x2 < b && 0 <= y2 < lvec@.len() && w == self@.trunc_k(
                                    fvec@[x2]@ + lvec@[y2]@,
                                ),
                    )),
                chars_set(out@) == rows(x as int),
            decreases fvec@.len() - x,
        {
            let ghost prevrow = chars_set(out@);
            let mut y: usize = 0;
            while y < lvec.len()
                invariant
                    0 <= y <= lvec@.len(),
                    0 <= x < fvec@.len(),
                    self@.k == self.lookahead as nat,
                    distinct_chars(out@),
                    chars_set(out@) == prevrow.union(
                        Set::new(
                            |w: Seq<char>|
                                exists|y2: int|
                                    0 <= y2 < y && w == self@.trunc_k(
                                        fvec@[x as int]@ + #[trigger] lvec@[y2]@,
                                    ),
                        ),
                    ),
                decreases lvec@.len() - y,
            {
                let joined = concat_chars(&fvec[x], &lvec[y]);
                let w = if self.lookahead <= joined.len() {
                    take_chars(&joined, self.lookahead)
                } else {
                    joined
                };
                proof {
                    assert(w@ == self@.trunc_k(fvec@[x as int]@ + lvec@[y as int]@));
                }
                push_unique_chars(&mut out, w);
                proof {
                    let colset = Set::new(
                        |w2: Seq<char>|
                            exists|y2: int|
                                0 <= y2 < y && w2 == self@.trunc_k(
                                    fvec@[x as int]@ + #[trigger] lvec@[y2]@,
                                ),
                    );
                    let colset1 = Set::new(
                        |w2: Seq<char>|
                            exists|y2: int|
                                0 <= y2 < y + 1 && w2 == self@.trunc_k(
                                    fvec@[x as int]@ + #[trigger] lvec@[y2]@,
                                ),
                    );
                    assert forall|u: Seq<char>| #[trigger] colset1.contains(u) implies colset.insert(
                        self@.trunc_k(fvec@[x as int]@ + lvec@[y as int]@),
                    ).contains(u) by {
                        let y2 = choose|y2: int|
                            0 <= y2 < y + 1 && u == self@.trunc_k(
                                fvec@[x as int]@ + #[trigger] lvec@[y2]@,
                            );
                        if y2 < y {
                            assert(colset.contains(u));
                        }
                    }
                    assert forall|u: Seq<char>|
                        colset.insert(
                            self@.trunc_k(fvec@[x as int]@ + lvec@[y as int]@),
                        ).contains(u) implies #[trigger] colset1.contains(u) by {
                        if colset.contains(u) {
                            let y2 = choose|y2: int|
                                0 <= y2 < y && u == self@.trunc_k(
                                    fvec@[x as int]@ + #[trigger] lvec@[y2]@,
                                );
                        } else {
                            assert(u == self@.trunc_k(fvec@[x as int]@ + lvec@[y as int]@));
                        }
                    }
                    assert(chars_set(out@) =~= prevrow.union(colset1));
                }
                y = y + 1;
            }
            proof {
                let colfull = Set::new(
                    |w2: Seq<char>|
                        exists|y2: int|
                            0 <= y2 < lvec@.len() && w2 == self@.trunc_k(
                                fvec@[x as int]@ + #[trigger] lvec@[y2]@,
                            ),
                );
                assert forall|u: Seq<char>| #[trigger] rows(x + 1 as int).contains(u) implies prevrow.union(
                    colfull,
                ).contains(u) by {
                    let (x2, y2) = choose|x2: int, y2: int|
                        #![trigger fvec@[x2], lvec@[y2]]
                        0 <= x2 < x + 1 && 0 <= y2 < lvec@.len() && u == self@.trunc_k(
                            fvec@[x2]@ + lvec@[y2]@,
                        );
                    if x2 < x {
                        assert(rows(x as int).contains(u));
                    } else {
                        assert(colfull.contains(u));
                    }
                }
                assert forall|u: Seq<char>| prevrow.union(colfull).contains(u) implies #[trigger] rows(
                    x + 1 as int,
                ).contains(u) by {
                    if prevrow.contains(u) {
                        let (x2, y2) = choose|x2: int, y2: int|
                            #![trigger fvec@[x2], lvec@[y2]]
                            0 <= x2 < x && 0 <= y2 < lvec@.len() && u == self@.trunc_k(
                                fvec@[x2]@ + lvec@[y2]@,
                            );
                        assert(rows(x + 1 as int).contains(u));
                    } else {
                        let y2 = choose|y2: int|
                            0 <= y2 < lvec@.len() && u == self@.trunc_k(
                                fvec@[x as int]@ + #[trigger] lvec@[y2]@,
                            );
                        assert(rows(x + 1 as int).contains(u));
                    }
                }
                assert(chars_set(out@) =~= rows(x + 1 as int));
            }
            x = x + 1;
        }
        proof {
            reveal(GrammarModel::choice_set);
            let combined = self@.choice_combine(fset, lset);
            assert forall|u: Seq<char>| #[trigger] chars_set(out@).contains(u) implies combined.contains(
                u,
            ) by {
                let (x2, y2) = choose|x2: int, y2: int|
                    #![trigger fvec@[x2], lvec@[y2]]
                    0 <= x2 < fvec@.len() && 0 <= y2 < lvec@.len() && u == self@.trunc_k(
                        fvec@[x2]@ + lvec@[y2]@,
                    );
                assert(fset.contains(fvec@[x2]@));
                assert(lset.contains(lvec@[y2]@));
            }
            assert forall|u: Seq<char>| #[trigger] combined.contains(u) implies chars_set(
                out@,
            ).contains(u) by {
                let (ft, lt) = choose|ft: Seq<char>, lt: Seq<char>|
                    #![trigger fset.contains(ft), lset.contains(lt)]
                    fset.contains(ft) && lset.contains(lt) && u == self@.trunc_k(ft + lt);
                let x2 = choose|x2: int| 0 <= x2 < fvec@.len() && #[trigger] fvec@[x2]@ == ft;
                let y2 = choose|y2: int| 0 <= y2 < lvec@.len() && #[trigger] lvec@[y2]@ == lt;
                assert(rows(fvec@.len() as int).contains(u));
            }
            assert(chars_set(out@) =~= combined);
        }
        out
    }

    /// The FOLLOW set of the non-terminal `nterm`: every terminal
    /// string that can appear immediately to its right in a
    /// derivation. Asking for the FOLLOW set of anything that is not
    /// a non-terminal is rejected as an illegal operation.
    pub fn follow(&self, nterm: char) -> (r: Result<Vec<String>, LlkError>)
        ensures
            self@.is_nterm(nterm) ==> (r matches Ok(v) && strs_set(v@) == self@.follow_set(nterm)
                && distinct_strs(v@)),
            !self@.is_nterm(nterm) ==> (r matches Err(e) && e is IllegalOperation),
    {
        if !self.is_nterm(nterm) {
            return Err(
                LlkError::IllegalOperation(
                    "FOLLOW set of a symbol that is not a non-terminal".to_owned(),
                ),
            );
        }
        let nv = self.compute_nullable();
        let mut visited: Vec<(char, Option<Vec<char>>)> = Vec::new();
        proof {
            assert(pv_set(visited@) =~= Set::<(char, Option<Seq<char>>)>::empty());
            self@.prods.lemma_cardinality_of_set();
            assert(self@.prods.to_set().difference(Set::empty()) =~= self@.prods.to_set());
        }
        let r = self.follow_rec_exec(nterm, &mut visited, 0, &nv, Ghost(self@.prods.len()));
        Ok(to_strings(&r))
    }
}

impl LlkGrammar {
    /// The FIRST set of `string`: every terminal prefix of length up
    /// to the grammar's lookahead that some expansion of `string` can
    /// begin with, and `None` exactly when `string` can derive the
    /// empty string. Rejects strings holding unknown characters or a
    /// misplaced end marker.
    pub fn first(&self, string: &str) -> (r: Result<Vec<Option<String>>, LlkError>)
        ensures
            self@.string_ok(string@) ==> (r matches Ok(v) && opt_strs_set(v@)
                == self@.first_sets(string@) && distinct_str_opts(v@)),
            !self@.string_ok(string@) ==> (r matches Err(e) && e matches LlkError::UnknownSymbol(
                ch,
            ) && ch == self@.string_err(string@)),
    {
        match assert_grammar_string(self, string) {
            Err(e) => Err(e),
            Ok(()) => {
                let s = to_chars(string);
                let nv = self.compute_nullable();
                let f = self.first_chars(&s, &nv);
                Ok(to_opt_strings(&f))
            },
        }
    }
}

} // verus!
