//! How the options of an rc line group into options and their values,
//! according to the exact flag catalog.

use vstd::prelude::*;
use super::catalog::{spec_resolve, Flag, FlagCatalog, FlagSpelling, ResolvedFlag};
use super::syntax::{Line, Token};

verus! {

/// One native option of a line, the flag it names, and the separate token
/// that carries its value, when it takes one.
#[derive(Clone, Copy)]
pub struct NativeOption<'syntax, 'catalog> {
    pub option: &'syntax Token,
    pub resolved: Option<ResolvedFlag<'catalog>>,
    pub value: Option<&'syntax Token>,
}

/// An option's token, its resolution and its value token.
pub type OptionUse = (Token, Option<(Flag, FlagSpelling)>, Option<Token>);

/// A resolution as the flag and spelling it names.
pub open spec fn resolved_view(r: Option<ResolvedFlag>) -> Option<(Flag, FlagSpelling)> {
    match r {
        Some(r) => Some((*r.flag, r.spelling)),
        None => None,
    }
}

/// A native option as the tokens and resolution it holds.
pub open spec fn use_view(u: NativeOption) -> OptionUse {
    (
        *u.option,
        resolved_view(u.resolved),
        match u.value {
            Some(v) => Some(*v),
            None => None,
        },
    )
}

/// The options from position `i` on, grouped: an option whose flag requires
/// a value and that carries no `=` takes the next token as its value.
pub open spec fn option_uses(flags: Seq<Flag>, options: Seq<Token>, i: int) -> Seq<OptionUse>
    decreases options.len() - i,
{
    if i < 0 || i >= options.len() {
        Seq::empty()
    } else {
        let resolved = spec_resolve(flags, options[i].text@);
        let takes_next = match resolved {
            Some((flag, _)) => flag.requires_value && !options[i].text@.contains('='),
            None => false,
        };
        if takes_next && i + 1 < options.len() {
            seq![(options[i], resolved, Some(options[i + 1]))] + option_uses(flags, options, i + 2)
        } else {
            seq![(options[i], resolved, None::<Token>)] + option_uses(flags, options, i + 1)
        }
    }
}

/// The options after a line's key.
pub open spec fn line_options(line: Line) -> Seq<Token> {
    if line.tokens@.len() > 0 {
        line.tokens@.skip(1)
    } else {
        Seq::empty()
    }
}

/// The native options of a line, each with the flag it names and its value.
pub fn uses<'syntax, 'catalog>(line: &'syntax Line, catalog: &'catalog FlagCatalog) -> (found: Vec<
    NativeOption<'syntax, 'catalog>,
>)
    ensures
        found@.len() == option_uses(catalog.flag_list(), line_options(*line), 0).len(),
        forall|k: int|
            0 <= k < found@.len() ==> use_view(#[trigger] found@[k]) == option_uses(
                catalog.flag_list(),
                line_options(*line),
                0,
            )[k],
{
    let options = line.options();
    let ghost flags = catalog.flag_list();
    let ghost spec = option_uses(flags, options@, 0);
    let mut found: Vec<NativeOption<'syntax, 'catalog>> = Vec::new();
    let mut index: usize = 0;
    loop
        invariant
            index <= options@.len(),
            options@ == line_options(*line),
            flags == catalog.flag_list(),
            spec == option_uses(flags, options@, 0),
            found@.len() + option_uses(flags, options@, index as int).len() == spec.len(),
            forall|k: int| 0 <= k < found@.len() ==> use_view(#[trigger] found@[k]) == spec[k],
            forall|k: int|
                0 <= k < option_uses(flags, options@, index as int).len() ==> spec[found@.len() + k]
                    == #[trigger] option_uses(flags, options@, index as int)[k],
        decreases options@.len() - index,
    {
        if index >= options.len() {
            return found;
        }
        let ghost rest = option_uses(flags, options@, index as int);
        let option = &options[index];
        let resolved = catalog.resolve_option(option.text.as_str());
        let takes_next = match resolved {
            Some(r) => r.flag.requires_value && crate::text::find_char(
                &crate::text::chars_of(option.text.as_str()),
                '=',
            ).is_none(),
            None => false,
        };
        proof {
            if option.text@.contains('=') {
                let k = choose|k: int| 0 <= k < option.text@.len() && option.text@[k] == '=';
                assert(option.text@[k] == '=');
            }
        }
        let next = if takes_next && index + 1 < options.len() {
            Some(&options[index + 1])
        } else {
            None
        };
        let step: usize = if next.is_some() {
            2
        } else {
            1
        };
        found.push(NativeOption { option, resolved, value: next });
        proof {
            let rest2 = option_uses(flags, options@, index + step);
            assert(rest =~= seq![rest[0]] + rest2);
            assert(use_view(found@[found@.len() - 1]) == rest[0]);
            assert forall|k: int| 0 <= k < rest2.len() implies spec[found@.len() + k] == #[trigger] rest2[k] by {
                assert(rest[k + 1] == rest2[k]);
            }
        }
        index = index + step;
    }
}

} // verus!
