//! The tokenizer registry: maps the recognized names (and the alias) to
//! variants, caching each variant after its first construction so that
//! repeated resolution observes the same instance.
use vstd::prelude::*;

use crate::errors::TokenizeError;
use crate::text::str_eq;
use crate::variant::{is_loaded_variant, TokenizerName, Variant};

verus! {

/// The variant a name refers to: the six recognized names, plus the
/// alias that maps to the same variant as its canonical name.
pub open spec fn spec_name_of(s: Seq<char>) -> Option<TokenizerName> {
    if s == "o200k_harmony"@ {
        Some(TokenizerName::O200kHarmony)
    } else if s == "o200k_base"@ {
        Some(TokenizerName::O200kBase)
    } else if s == "cl100k_base"@ {
        Some(TokenizerName::Cl100kBase)
    } else if s == "p50k_base"@ {
        Some(TokenizerName::P50kBase)
    } else if s == "p50k_edit"@ {
        Some(TokenizerName::P50kEdit)
    } else if s == "r50k_base"@ {
        Some(TokenizerName::R50kBase)
    } else if s == "gpt2"@ {
        Some(TokenizerName::R50kBase)
    } else {
        None
    }
}

/// Parses a tokenizer name; `None` exactly when the name is not
/// recognized.
pub fn parse_name(s: &str) -> (r: Option<TokenizerName>)
    ensures
        r == spec_name_of(s@),
{
    if str_eq(s, "o200k_harmony") {
        Some(TokenizerName::O200kHarmony)
    } else if str_eq(s, "o200k_base") {
        Some(TokenizerName::O200kBase)
    } else if str_eq(s, "cl100k_base") {
        Some(TokenizerName::Cl100kBase)
    } else if str_eq(s, "p50k_base") {
        Some(TokenizerName::P50kBase)
    } else if str_eq(s, "p50k_edit") {
        Some(TokenizerName::P50kEdit)
    } else if str_eq(s, "r50k_base") {
        Some(TokenizerName::R50kBase)
    } else if str_eq(s, "gpt2") {
        Some(TokenizerName::R50kBase)
    } else {
        None
    }
}

/// The alias names the same variant as its canonical name, and no other
/// recognized name coincides with it.
pub proof fn lemma_alias_names_same_variant()
    ensures
        spec_name_of("gpt2"@) == Some(TokenizerName::R50kBase),
        spec_name_of("gpt2"@) == spec_name_of("r50k_base"@),
{
    reveal_strlit("gpt2");
    reveal_strlit("o200k_harmony");
    reveal_strlit("o200k_base");
    reveal_strlit("cl100k_base");
    reveal_strlit("p50k_base");
    reveal_strlit("p50k_edit");
    reveal_strlit("r50k_base");
    assert("gpt2"@.len() == 4);
    assert("o200k_harmony"@.len() == 13);
    assert("o200k_base"@.len() == 10);
    assert("cl100k_base"@.len() == 11);
    assert("p50k_base"@.len() == 9);
    assert("p50k_edit"@.len() == 9);
    assert("r50k_base"@.len() == 9);
    assert("r50k_base"@[0] == 'r');
    assert("p50k_base"@[0] == 'p');
    assert("p50k_edit"@[0] == 'p');
    assert("r50k_base"@ != "p50k_base"@);
    assert("r50k_base"@ != "p50k_edit"@);
}

/// A process-wide cache of constructed variants: one slot per recognized
/// variant, filled at most once.
pub struct Registry {
    o200k_harmony: Option<Variant>,
    o200k_base: Option<Variant>,
    cl100k_base: Option<Variant>,
    p50k_base: Option<Variant>,
    p50k_edit: Option<Variant>,
    r50k_base: Option<Variant>,
}

impl Registry {
    /// The cached variant for a name, if constructed already.
    pub closed spec fn slot(&self, name: TokenizerName) -> Option<Variant> {
        match name {
            TokenizerName::O200kHarmony => self.o200k_harmony,
            TokenizerName::O200kBase => self.o200k_base,
            TokenizerName::Cl100kBase => self.cl100k_base,
            TokenizerName::P50kBase => self.p50k_base,
            TokenizerName::P50kEdit => self.p50k_edit,
            TokenizerName::R50kBase => self.r50k_base,
        }
    }

    /// Every cached variant is the loaded variant of its name.
    pub open spec fn wf(&self) -> bool {
        forall|n: TokenizerName| (#[trigger] self.slot(n)) is Some ==> is_loaded_variant(
            self.slot(n).unwrap(),
            n,
        )
    }

    /// An empty registry: nothing constructed yet.
    pub fn new() -> (r: Registry)
        ensures
            r.wf(),
            forall|n: TokenizerName| (#[trigger] r.slot(n)) is None,
    {
        Registry {
            o200k_harmony: None,
            o200k_base: None,
            cl100k_base: None,
            p50k_base: None,
            p50k_edit: None,
            r50k_base: None,
        }
    }

    /// Ensures the named variant is constructed; this always succeeds,
    /// since every recognized variant loads. Construction happens at
    /// most once: when the slot is already filled, the registry is left
    /// exactly as it was, so every later resolution observes the same
    /// instance. Other slots are never touched.
    pub fn resolve(&mut self, name: TokenizerName) -> (r: Result<(), TokenizeError>)
        requires
            old(self).wf(),
        ensures
            final(self).wf(),
            r is Ok,
            final(self).slot(name) is Some,
            old(self).slot(name) is Some ==> *final(self) == *old(self),
            forall|n: TokenizerName| n != name ==> final(self).slot(n) == old(self).slot(n),
    {
        let filled = match name {
            TokenizerName::O200kHarmony => self.o200k_harmony.is_some(),
            TokenizerName::O200kBase => self.o200k_base.is_some(),
            TokenizerName::Cl100kBase => self.cl100k_base.is_some(),
            TokenizerName::P50kBase => self.p50k_base.is_some(),
            TokenizerName::P50kEdit => self.p50k_edit.is_some(),
            TokenizerName::R50kBase => self.r50k_base.is_some(),
        };
        if filled {
            return Ok(());
        }
        match Variant::load(name) {
            Err(_) => {
                proof {
                    assert(false);
                }
                Err(TokenizeError::Load)
            },
            Ok(v) => {
                match name {
                    TokenizerName::O200kHarmony => self.o200k_harmony = Some(v),
                    TokenizerName::O200kBase => self.o200k_base = Some(v),
                    TokenizerName::Cl100kBase => self.cl100k_base = Some(v),
                    TokenizerName::P50kBase => self.p50k_base = Some(v),
                    TokenizerName::P50kEdit => self.p50k_edit = Some(v),
                    TokenizerName::R50kBase => self.r50k_base = Some(v),
                }
                proof {
                    assert forall|n: TokenizerName| (#[trigger] self.slot(n)) is Some implies
                        is_loaded_variant(self.slot(n).unwrap(), n) by {
                        if n != name {
                            assert(self.slot(n) == old(self).slot(n));
                        }
                    }
                }
                Ok(())
            },
        }
    }

    /// The cached variant for a name.
    pub fn get(&self, name: TokenizerName) -> (r: Option<&Variant>)
        ensures
            r is Some <==> self.slot(name) is Some,
            r is Some ==> *r.unwrap() == self.slot(name).unwrap(),
    {
        match name {
            TokenizerName::O200kHarmony => self.o200k_harmony.as_ref(),
            TokenizerName::O200kBase => self.o200k_base.as_ref(),
            TokenizerName::Cl100kBase => self.cl100k_base.as_ref(),
            TokenizerName::P50kBase => self.p50k_base.as_ref(),
            TokenizerName::P50kEdit => self.p50k_edit.as_ref(),
            TokenizerName::R50kBase => self.r50k_base.as_ref(),
        }
    }
}

} // verus!
