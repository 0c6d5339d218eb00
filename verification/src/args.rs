//! The command-line adapter: from an ordered sequence of tokens to a table.

use crate::coerce::coerced;
use crate::coerce::lemma_boolean_round_trip;
use crate::error::ConfigError;
use crate::error::Failure;
use crate::path::inserted;
use crate::path::set_option;
use crate::text::chars_of;
use crate::tree::Node;
use crate::tree::Table;
use vstd::prelude::*;

verus! {

/// A token that names an option: it begins with two hyphens.
pub open spec fn is_option(token: Seq<char>) -> bool {
    token.len() >= 2 && token[0] == '-' && token[1] == '-'
}

/// The dotted path that an option token names: the token without its two
/// hyphens.
pub open spec fn option_path(token: Seq<char>) -> Seq<char> {
    token.subrange(2, token.len() as int)
}

/// The characters of each token.
pub open spec fn texts(tokens: Seq<String>) -> Seq<Seq<char>> {
    tokens.map_values(|t: String| t@)
}

/// What the tokens from position `i` on make of `table`.
///
/// A token that names no option is passed over. An option takes the next
/// token as its value, coerced, and both are consumed; where the next token
/// names an option itself, the first is a bare flag, stored as the boolean
/// `true`, and the next token is read as an option in turn. An option that
/// is the last token has neither, and the arguments are malformed. A value
/// that cannot be inserted at its path ends the reading with the mismatch.
pub open spec fn parsed_from(tokens: Seq<Seq<char>>, i: int, table: Map<Seq<char>, Node>) -> Result<
    Map<Seq<char>, Node>,
    Failure,
>
    decreases tokens.len() - i,
{
    if !(0 <= i < tokens.len()) {
        Ok(table)
    } else if !is_option(tokens[i]) {
        parsed_from(tokens, i + 1, table)
    } else if i + 1 >= tokens.len() {
        Err(Failure::MalformedArguments)
    } else {
        let bare = is_option(tokens[i + 1]);
        let value = if bare {
            Node::Boolean(true)
        } else {
            coerced(tokens[i + 1])
        };
        match inserted(table, option_path(tokens[i]), value) {
            Ok(changed) => parsed_from(
                tokens,
                if bare {
                    i + 1
                } else {
                    i + 2
                },
                changed,
            ),
            Err(place) => Err(Failure::TypeMismatch(place)),
        }
    }
}

/// The table that a sequence of tokens describes, or why it describes none.
pub open spec fn parsed(tokens: Seq<Seq<char>>) -> Result<Map<Seq<char>, Node>, Failure> {
    parsed_from(tokens, 0, Map::empty())
}

/// The path that `token` names, if it names an option.
fn option_of(token: &str) -> (r: Option<&str>)
    ensures
        match r {
            Some(path) => is_option(token@) && path@ == option_path(token@),
            None => !is_option(token@),
        },
{
    let chars = chars_of(token);
    let n: usize = chars.len();
    if n >= 2 && chars[0] == '-' && chars[1] == '-' {
        Some(token.substring_char(2, n))
    } else {
        None
    }
}

/// Reads command-line tokens into a table.
///
/// A token that begins with `--` names an option, the rest of it being the
/// dotted path; the token after it is its value, unless that one names an
/// option too, in which case the first is a flag set to `true`. Other tokens
/// are passed over. An option as the last token is an error, and so is a
/// path that runs through a value which is no table.
pub fn arg_v2toml(arg_v: &[String]) -> (r: Result<Table, ConfigError>)
    ensures
        match parsed(texts(arg_v@)) {
            Ok(t) => r matches Ok(table) && table.wf() && table@ == t,
            Err(failure) => r matches Err(e) && e@ == failure,
        },
{
    let mut config = Table::new();
    let n: usize = arg_v.len();
    let ghost tokens = texts(arg_v@);
    let mut i: usize = 0;
    while i < n
        invariant
            i <= n,
            n == arg_v@.len(),
            tokens == texts(arg_v@),
            config.wf(),
            parsed_from(tokens, i as int, config@) == parsed(tokens),
        decreases n - i,
    {
        match option_of(arg_v[i].as_str()) {
            None => {
                i += 1;
            },
            Some(option) => {
                if i + 1 >= n {
                    return Err(ConfigError::MalformedArguments);
                }
                let next = arg_v[i + 1].as_str();
                let bare = option_of(next).is_some();
                proof {
                    lemma_boolean_round_trip(true);
                }
                let done = if bare {
                    set_option(&mut config, option, "true")
                } else {
                    set_option(&mut config, option, next)
                };
                match done {
                    Ok(()) => {},
                    Err(e) => {
                        return Err(e);
                    },
                }
                i = if bare {
                    i + 1
                } else {
                    i + 2
                };
            },
        }
    }
    Ok(config)
}

} // verus!
