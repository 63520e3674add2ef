//! Line styling: an ordered list of patterns with colours, where the first
//! pattern that matches a line decides its colours.
use vstd::prelude::*;
use crate::pattern::{compile_pattern, pattern_compiles, pattern_hits, pattern_is_match, CompiledPattern};

verus! {

/// Red, green and blue.
pub type HighlightColor = (u8, u8, u8);

/// A pattern and the colours for the lines that it matches.
#[derive(Debug)]
pub struct HighlightSetting {
    pub fg_color: HighlightColor,
    pub bg_color: HighlightColor,
    pub expr: String,
    pub case_insensitive: bool,
}

/// The colours chosen for a line.
#[derive(Debug, Clone, Copy, PartialEq, Eq)]
pub struct HighlightMatch {
    pub fg_color: HighlightColor,
    pub bg_color: HighlightColor,
}

/// The settings whose pattern compiles, in their order.
pub open spec fn compiled_rules(s: Seq<HighlightSetting>) -> Seq<HighlightSetting>
    decreases s.len(),
{
    if s.len() == 0 {
        Seq::empty()
    } else {
        let rest = compiled_rules(s.drop_last());
        if pattern_compiles(s.last().expr@, s.last().case_insensitive) {
            rest.push(s.last())
        } else {
            rest
        }
    }
}

pub open spec fn style_of(s: HighlightSetting) -> HighlightMatch {
    HighlightMatch { fg_color: s.fg_color, bg_color: s.bg_color }
}

/// For each rule, in order, whether its pattern matches `text`.
pub open spec fn hits_of(rules: Seq<HighlightSetting>, text: Seq<char>) -> Seq<bool> {
    Seq::new(rules.len(), |k: int| pattern_hits(rules[k].expr@, rules[k].case_insensitive, text))
}

/// The style of the first rule whose entry in `hits` is true.
pub open spec fn first_style(rules: Seq<HighlightSetting>, hits: Seq<bool>) -> Option<HighlightMatch>
    decreases rules.len(),
{
    if rules.len() == 0 || hits.len() == 0 {
        None
    } else if hits[0] {
        Some(style_of(rules[0]))
    } else {
        first_style(rules.drop_first(), hits.drop_first())
    }
}

/// The compiled rules, tried in order.
pub struct Highlighter {
    settings: Vec<(CompiledPattern, HighlightSetting)>,
}

fn copy_setting(s: &HighlightSetting) -> (r: HighlightSetting)
    ensures
        r == *s,
{
    HighlightSetting {
        fg_color: s.fg_color,
        bg_color: s.bg_color,
        expr: s.expr.clone(),
        case_insensitive: s.case_insensitive,
    }
}

impl Highlighter {
    /// The rules kept, in order.
    pub closed spec fn rules(&self) -> Seq<HighlightSetting> {
        self.settings@.map_values(|p: (CompiledPattern, HighlightSetting)| p.1)
    }

    /// Each kept matcher was compiled from its rule's pattern and flag.
    pub closed spec fn wf(&self) -> bool {
        forall|k: int|
            0 <= k < self.settings@.len() ==> (#[trigger] self.settings@[k]).0.expr()
                == self.settings@[k].1.expr@ && self.settings@[k].0.case_insensitive()
                == self.settings@[k].1.case_insensitive
    }

    /// Compiles each setting's pattern; a setting whose pattern does not
    /// compile is left out, and the others keep their order.
    pub fn new(highlight_settings: Vec<HighlightSetting>) -> (r: Self)
        ensures
            r.wf(),
            r.rules() == compiled_rules(highlight_settings@),
    {
        let mut settings: Vec<(CompiledPattern, HighlightSetting)> = Vec::new();
        let mut i: usize = 0;
        while i < highlight_settings.len()
            invariant
                i <= highlight_settings@.len(),
                forall|k: int|
                    0 <= k < settings@.len() ==> (#[trigger] settings@[k]).0.expr() == settings@[k].1.expr@
                        && settings@[k].0.case_insensitive() == settings@[k].1.case_insensitive,
                settings@.map_values(|p: (CompiledPattern, HighlightSetting)| p.1) == compiled_rules(
                    highlight_settings@.subrange(0, i as int),
                ),
            decreases highlight_settings@.len() - i,
        {
            let ghost prefix = highlight_settings@.subrange(0, i + 1);
            proof {
                assert(prefix.drop_last() =~= highlight_settings@.subrange(0, i as int));
            }
            if let Some(m) = Self::create_matcher_from(&highlight_settings[i]) {
                let ghost before = settings@;
                settings.push(m);
                proof {
                    assert(settings@.map_values(|p: (CompiledPattern, HighlightSetting)| p.1)
                        =~= before.map_values(|p: (CompiledPattern, HighlightSetting)| p.1).push(highlight_settings@[i as int]));
                }
            }
            i = i + 1;
        }
        proof {
            assert(highlight_settings@.subrange(0, i as int) =~= highlight_settings@);
        }
        Self { settings }
    }

    fn create_matcher_from(setting: &HighlightSetting) -> (r: Option<(CompiledPattern, HighlightSetting)>)
        ensures
            r is Some <==> pattern_compiles(setting.expr@, setting.case_insensitive),
            r is Some ==> r->Some_0.1 == *setting && r->Some_0.0.expr() == setting.expr@
                && r->Some_0.0.case_insensitive() == setting.case_insensitive,
    {
        match compile_pattern(setting.expr.as_str(), setting.case_insensitive) {
            Some(m) => Some((m, copy_setting(setting))),
            None => None,
        }
    }

    /// The colours of the first rule whose pattern matches `text`; none when
    /// no rule matches or there are no rules.
    pub fn matches(&self, text: &str) -> (r: Option<HighlightMatch>)
        requires
            self.wf(),
        ensures
            r == first_style(self.rules(), hits_of(self.rules(), text@)),
    {
        let ghost rules = self.rules();
        let ghost hits = hits_of(rules, text@);
        let n = self.settings.len();
        if n == 0 {
            return None;
        }
        let mut i: usize = 0;
        proof {
            assert(rules.subrange(0, n as int) =~= rules);
            assert(hits.subrange(0, n as int) =~= hits);
        }
        while i < n
            invariant
                self.wf(),
                rules == self.rules(),
                hits == hits_of(rules, text@),
                n == self.settings@.len(),
                i <= n,
                first_style(rules, hits) == first_style(
                    rules.subrange(i as int, n as int),
                    hits.subrange(i as int, n as int),
                ),
            decreases n - i,
        {
            let ghost rs = rules.subrange(i as int, n as int);
            let ghost hs = hits.subrange(i as int, n as int);
            proof {
                assert(rs.drop_first() =~= rules.subrange(i + 1, n as int));
                assert(hs.drop_first() =~= hits.subrange(i + 1, n as int));
            }
            let (m, s) = &self.settings[i];
            proof {
                assert(rs[0] == *s);
                assert(self.settings@[i as int].0.expr() == s.expr@);
            }
            if pattern_is_match(m, text) {
                return Some(HighlightMatch { fg_color: s.fg_color, bg_color: s.bg_color });
            }
            i = i + 1;
        }
        None
    }
}

/// The first rule that matches decides: with rules `[a, b]` and `a`
/// matching the text, the style is `a`'s, whether or not `b` matches; with
/// no rules there is no style.
pub proof fn lemma_first_rule_wins(a: HighlightSetting, b: HighlightSetting, text: Seq<char>)
    ensures
        pattern_hits(a.expr@, a.case_insensitive, text) ==> first_style(
            seq![a, b],
            hits_of(seq![a, b], text),
        ) == Some(style_of(a)),
        first_style(Seq::<HighlightSetting>::empty(), hits_of(Seq::<HighlightSetting>::empty(), text))
            is None,
{
    let hits = hits_of(seq![a, b], text);
    assert(hits[0] == pattern_hits(a.expr@, a.case_insensitive, text));
}

} // verus!
