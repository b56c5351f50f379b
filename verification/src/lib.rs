pub mod error;
pub mod grammar;
pub mod util;

pub use crate::error::LlkError;
pub use crate::grammar::parser::LlkParser;
pub use crate::grammar::tree::LlkTree;
pub use crate::grammar::LlkGrammar;

use vstd::prelude::*;

use crate::grammar::model_of;
use crate::grammar::tree::tree_leaves;
use crate::grammar::tree::tree_sym;
use crate::grammar::tree::tree_wf;
use crate::grammar::GrammarModel;
use crate::grammar::LlkProduction;
use crate::util::distinct_str_opts;
use crate::util::distinct_strs;
use crate::util::opt_strs_set;
use crate::util::strs_set;

verus! {

/// A facade bundling a frozen grammar with its compiled predictive
/// parser: one value that validates, analyses and parses.
pub struct Llk {
    parser: LlkParser,
}

impl Llk {
    /// The grammar this instance analyses and parses.
    pub closed spec fn gram(&self) -> GrammarModel {
        self.parser.gram()
    }

    /// The instance holds a validated grammar and a sound, complete
    /// parse table; every constructed instance does.
    pub closed spec fn wf(&self) -> bool {
        self.parser.wf()
    }

    /// The acceptance predicate of the bundled parser; see
    /// `LlkParser::accepts`.
    pub closed spec fn accepts(&self, s: Seq<char>) -> bool {
        self.parser.accepts(s)
    }

    /// The table-driven expansion of the bundled parser; see
    /// `LlkParser::expansion`.
    pub closed spec fn expansion(&self, s: Seq<char>) -> Option<(int, Seq<(char, Option<usize>)>)> {
        self.parser.expansion(s)
    }

    /// Validates the described grammar and compiles its parser.
    pub fn new(
        term_symbols: Vec<char>,
        nterm_symbols: Vec<char>,
        start_symbol: char,
        lookahead: usize,
        productions: Vec<LlkProduction>,
    ) -> (r: Result<Llk, LlkError>)
        ensures
            ({
                let m = model_of(
                    term_symbols@,
                    nterm_symbols@,
                    start_symbol,
                    lookahead as nat,
                    productions@,
                );
                &&& (r is Ok <==> m.valid())
                &&& (r matches Ok(l) ==> l.wf() && l.gram() == m)
                &&& (r matches Err(e) ==> e is InvalidGrammar)
            }),
    {
        match LlkGrammar::new(term_symbols, nterm_symbols, start_symbol, lookahead, productions) {
            Err(e) => Err(e),
            Ok(g) => Ok(Llk { parser: LlkParser::new(g) }),
        }
    }

    /// Parses an input string of terminals; see `LlkParser::parse`.
    pub fn parse(&self, string: &str) -> (r: Result<LlkTree, LlkError>)
        requires
            self.wf(),
        ensures
            (r is Ok) == self.accepts(string@),
            r matches Ok(t) ==> self.expansion(string@) == Some(
                (string@.len() as int, crate::grammar::tree::tree_preorder(t)),
            ),
            r matches Ok(t) ==> {
                &&& t is Node
                &&& tree_sym(t) == self.gram().start
                &&& tree_wf(t, self.gram())
                &&& tree_leaves(t) == string@
            },
            !self.gram().term_str_ok(string@) ==> (r matches Err(e)
                && e matches LlkError::UnknownSymbol(ch) && ch == self.gram().term_str_err(
                string@,
            )),
            self.gram().term_str_ok(string@) ==> (r is Ok || (r matches Err(e)
                && e is DerivationFailed)),
    {
        self.parser.parse(string)
    }

    /// The FIRST set of a string; see `LlkGrammar::first`.
    pub fn first(&self, string: &str) -> (r: Result<Vec<Option<String>>, LlkError>)
        ensures
            self.gram().string_ok(string@) ==> (r matches Ok(v) && opt_strs_set(v@)
                == self.gram().first_sets(string@) && distinct_str_opts(v@)),
            !self.gram().string_ok(string@) ==> (r matches Err(e)
                && e matches LlkError::UnknownSymbol(ch) && ch == self.gram().string_err(string@)),
    {
        self.parser.grammar_ref().first(string)
    }

    /// The FOLLOW set of a non-terminal; see `LlkGrammar::follow`.
    pub fn follow(&self, nterm: char) -> (r: Result<Vec<String>, LlkError>)
        ensures
            self.gram().is_nterm(nterm) ==> (r matches Ok(v) && strs_set(v@)
                == self.gram().follow_set(nterm) && distinct_strs(v@)),
            !self.gram().is_nterm(nterm) ==> (r matches Err(e) && e is IllegalOperation),
    {
        self.parser.grammar_ref().follow(nterm)
    }
}

} // verus!
