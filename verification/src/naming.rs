//! The translation keys of enum variants.

use vstd::prelude::*;

verus! {

/// The key of a variant: the enum's name, a dot and the variant's name, after
/// the module and a dot where a module is given.
pub open spec fn variant_key_text(
    module: Option<Seq<char>>,
    name: Seq<char>,
    variant: Seq<char>,
) -> Seq<char> {
    match module {
        Some(prefix) => prefix + "."@ + name + "."@ + variant,
        None => name + "."@ + variant,
    }
}

/// The translation key of the variant `variant` of the enum `name`.
pub fn variant_key(module: Option<&str>, name: &str, variant: &str) -> (key: String)
    ensures
        key@ == variant_key_text(
            match module {
                Some(prefix) => Some(prefix@),
                None => None,
            },
            name@,
            variant@,
        ),
{
    let mut key = String::new();
    if let Some(prefix) = module {
        key.append(prefix);
        key.append(".");
    }
    key.append(name);
    key.append(".");
    key.append(variant);
    assert(Seq::<char>::empty() + name@ =~= name@);
    assert(module matches Some(prefix) ==> Seq::<char>::empty() + prefix@ =~= prefix@);
    key
}

} // verus!
