//! The grammar: an ordered list of rules (delimiter pairs and breakers) plus
//! a list of whitespace patterns, all raw byte sequences.

use vstd::prelude::*;

verus! {

/// A delimiter pair: the opening byte pattern and the closing pattern that
/// ends the region it opens.
pub struct Delim {
    pub start_pattern: Vec<u8>,
    pub end_pattern: Vec<u8>,
}

impl View for Delim {
    type V = (Seq<u8>, Seq<u8>);

    open spec fn view(&self) -> (Seq<u8>, Seq<u8>) {
        (self.start_pattern@, self.end_pattern@)
    }
}

impl Delim {
    pub fn new(start_pattern: Vec<u8>, end_pattern: Vec<u8>) -> (d: Delim)
        ensures
            d@ == (start_pattern@, end_pattern@),
    {
        Delim { start_pattern, end_pattern }
    }
}

impl Clone for Delim {
    fn clone(&self) -> (d: Self)
        ensures
            d@ == self@,
    {
        Delim {
            start_pattern: self.start_pattern.clone(),
            end_pattern: self.end_pattern.clone(),
        }
    }
}

/// One grammar rule: either a breaker pattern, which only forces a token
/// boundary, or a delimiter pair, which opens and closes a structural region.
pub enum GrammarDef {
    Breaker(Vec<u8>),
    Delim(Vec<u8>, Vec<u8>),
}

/// Specification-level image of a [`GrammarDef`].
pub enum GrammarDefModel {
    Breaker(Seq<u8>),
    Delim(Seq<u8>, Seq<u8>),
}

impl View for GrammarDef {
    type V = GrammarDefModel;

    open spec fn view(&self) -> GrammarDefModel {
        match self {
            GrammarDef::Breaker(p) => GrammarDefModel::Breaker(p@),
            GrammarDef::Delim(s, e) => GrammarDefModel::Delim(s@, e@),
        }
    }
}

impl GrammarDefModel {
    /// Every pattern of a rule consumes at least one byte; this is what
    /// guarantees the parser's forward progress.
    pub open spec fn wf(self) -> bool {
        match self {
            GrammarDefModel::Breaker(p) => p.len() > 0,
            GrammarDefModel::Delim(s, e) => s.len() > 0 && e.len() > 0,
        }
    }

    /// Whether this rule is a delimiter pair.
    pub open spec fn is_delim_rule(self) -> bool {
        self matches GrammarDefModel::Delim(_, _)
    }

    /// The open pattern of a delimiter rule.
    pub open spec fn rule_open(self) -> Seq<u8>
        recommends
            self.is_delim_rule(),
    {
        match self {
            GrammarDefModel::Delim(s, _) => s,
            GrammarDefModel::Breaker(p) => p,
        }
    }

    /// The close pattern of a delimiter rule.
    pub open spec fn rule_close(self) -> Seq<u8>
        recommends
            self.is_delim_rule(),
    {
        match self {
            GrammarDefModel::Delim(_, e) => e,
            GrammarDefModel::Breaker(p) => p,
        }
    }
}

/// Specification-level image of a [`Grammar`].
pub struct GrammarModel {
    pub defs: Seq<GrammarDefModel>,
    pub whitespace: Seq<Seq<u8>>,
}

impl GrammarModel {
    /// All rule and whitespace patterns are non-empty.
    pub open spec fn wf(self) -> bool {
        &&& forall|i: int| 0 <= i < self.defs.len() ==> #[trigger] self.defs[i].wf()
        &&& forall|i: int|
            0 <= i < self.whitespace.len() ==> #[trigger] self.whitespace[i].len() > 0
    }

    /// The pair `(s, e)` is one of the grammar's delimiter rules.
    pub open spec fn is_delim_pair(self, s: Seq<u8>, e: Seq<u8>) -> bool {
        exists|i: int|
            0 <= i < self.defs.len() && self.defs[i] == GrammarDefModel::Delim(s, e)
    }
}

/// The delimiter pairs of `defs`, in rule order.
pub open spec fn spec_delims(defs: Seq<GrammarDefModel>) -> Seq<(Seq<u8>, Seq<u8>)>
    decreases defs.len(),
{
    if defs.len() == 0 {
        Seq::empty()
    } else {
        let rest = spec_delims(defs.drop_last());
        match defs.last() {
            GrammarDefModel::Delim(s, e) => rest.push((s, e)),
            GrammarDefModel::Breaker(_) => rest,
        }
    }
}

/// The immutable rule set a file is parsed under: delimiter and breaker rules
/// in priority order, and the whitespace patterns, kept separately.
pub struct Grammar {
    pub defs: Vec<GrammarDef>,
    pub whitespace: Vec<Vec<u8>>,
}

impl View for Grammar {
    type V = GrammarModel;

    open spec fn view(&self) -> GrammarModel {
        GrammarModel {
            defs: self.defs@.map_values(|d: GrammarDef| d@),
            whitespace: self.whitespace@.map_values(|w: Vec<u8>| w@),
        }
    }
}

impl Grammar {
    pub fn new(defs: Vec<GrammarDef>, whitespace: Vec<Vec<u8>>) -> (g: Grammar)
        ensures
            g@.defs == defs@.map_values(|d: GrammarDef| d@),
            g@.whitespace == whitespace@.map_values(|w: Vec<u8>| w@),
    {
        Grammar { defs, whitespace }
    }

    /// The delimiter pairs of this grammar, in rule order, with their
    /// patterns copied out.
    pub fn delims(&self) -> (out: Vec<Delim>)
        ensures
            out@.map_values(|d: Delim| d@) == spec_delims(self@.defs),
    {
        let mut out: Vec<Delim> = Vec::new();
        let ghost all_defs = self@.defs;
        let mut i: usize = 0;
        while i < self.defs.len()
            invariant
                0 <= i <= self.defs.len(),
                all_defs == self@.defs,
                all_defs.len() == self.defs.len(),
                out@.map_values(|d: Delim| d@) == spec_delims(all_defs.take(i as int)),
            decreases self.defs.len() - i,
        {
            match &self.defs[i] {
                GrammarDef::Delim(s, e) => {
                    let d = Delim::new(s.clone(), e.clone());
                    out.push(d);
                }
                GrammarDef::Breaker(_) => {}
            }
            proof {
                assert(all_defs.take(i + 1).drop_last() =~= all_defs.take(i as int));
                assert(all_defs.take(i + 1).last() == all_defs[i as int]);
            }
            i = i + 1;
        }
        proof {
            assert(all_defs.take(self.defs.len() as int) =~= all_defs);
        }
        out
    }
}

} // verus!
