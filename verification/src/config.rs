//! Command configuration.
//!
//! Configuration files map trigger phrases to actions.  Several files
//! may be merged; a trigger that appears twice (case-insensitively)
//! across the merged sources is a fatal configuration error, as is a
//! configuration with no commands at all.  An action is either a
//! shell command, marked by a `cmd:` prefix, or literal text to type.

use vstd::prelude::*;
use vstd::string::StrSliceExecFns;
use crate::text::{chars_of, contains_string, lower_of, string_from_chars, to_lower};

verus! {

/// A trigger phrase bound to an action.
#[derive(Clone)]
pub struct Command {
    pub trigger: String,
    pub action: String,
}

/// The merged command configuration.
#[derive(Clone)]
pub struct Config {
    pub commands: Vec<Command>,
}

/// Why a configuration could not be assembled.
#[derive(Clone, Copy, PartialEq, Eq, Structural, Debug)]
pub enum ConfigError {
    /// Two commands share a trigger, compared case-insensitively.
    DuplicateTrigger,
    /// The merged sources yield no command at all.
    NoCommands,
}

/// The command lists of all sources, in order.
pub open spec fn concat_commands(parts: Seq<Seq<Command>>) -> Seq<Command>
    decreases parts.len(),
{
    if parts.len() == 0 {
        Seq::empty()
    } else {
        parts[0] + concat_commands(parts.drop_first())
    }
}

/// Two commands of the list share a case-insensitive trigger.
pub open spec fn has_duplicate_trigger(cmds: Seq<Command>) -> bool {
    exists|a: int, b: int|
        0 <= a < b < cmds.len() && lower_of((#[trigger] cmds[a]).trigger@) == lower_of(
            (#[trigger] cmds[b]).trigger@,
        )
}

/// Merge the command lists of several configuration sources.  Fails
/// with `DuplicateTrigger` exactly when two commands anywhere in the
/// sources share a case-insensitive trigger, and with `NoCommands`
/// exactly when the sources are duplicate-free but hold no command;
/// otherwise the merged configuration holds every command, in source
/// order.
pub fn combine_configs(parts: &Vec<Vec<Command>>) -> (r: Result<Config, ConfigError>)
    ensures
        r matches Ok(c) ==> {
            &&& c.commands@ == concat_commands(parts@.map_values(|p: Vec<Command>| p@))
            &&& !has_duplicate_trigger(c.commands@)
            &&& c.commands@.len() > 0
        },
        r == Err::<Config, ConfigError>(ConfigError::DuplicateTrigger) <==> has_duplicate_trigger(
            concat_commands(parts@.map_values(|p: Vec<Command>| p@)),
        ),
        r == Err::<Config, ConfigError>(ConfigError::NoCommands) <==> {
            &&& !has_duplicate_trigger(concat_commands(parts@.map_values(|p: Vec<Command>| p@)))
            &&& concat_commands(parts@.map_values(|p: Vec<Command>| p@)).len() == 0
        },
{
    let ghost all = concat_commands(parts@.map_values(|p: Vec<Command>| p@));
    let mut acc: Vec<Command> = Vec::new();
    let mut seen: Vec<String> = Vec::new();
    let mut i: usize = 0;
    proof {
        assert(parts@.map_values(|p: Vec<Command>| p@).skip(0)
            =~= parts@.map_values(|p: Vec<Command>| p@));
        assert(acc@ + all =~= all);
    }
    while i < parts.len()
        invariant
            i <= parts@.len(),
            all == concat_commands(parts@.map_values(|p: Vec<Command>| p@)),
            all == acc@ + concat_commands(parts@.map_values(|p: Vec<Command>| p@).skip(i as int)),
            seen@.len() == acc@.len(),
            forall|k: int|
                0 <= k < acc@.len() ==> (#[trigger] seen@[k])@ == lower_of(acc@[k].trigger@),
            forall|a: int, b: int|
                0 <= a < b < acc@.len() ==> lower_of((#[trigger] acc@[a]).trigger@) != lower_of(
                    (#[trigger] acc@[b]).trigger@,
                ),
        decreases parts@.len() - i,
    {
        let ghost pviews = parts@.map_values(|p: Vec<Command>| p@);
        proof {
            assert(pviews.skip(i as int)[0] == pviews[i as int]);
            assert(pviews.skip(i as int).drop_first() =~= pviews.skip(i + 1));
            assert(concat_commands(pviews.skip(i as int)) == pviews[i as int] + concat_commands(
                pviews.skip(i + 1),
            ));
        }
        let part = &parts[i];
        let mut j: usize = 0;
        while j < part.len()
            invariant
                j <= part@.len(),
                part@ == parts@.map_values(|p: Vec<Command>| p@)[i as int],
                i < parts@.len(),
                all == concat_commands(parts@.map_values(|p: Vec<Command>| p@)),
                all == acc@ + part@.skip(j as int) + concat_commands(
                    parts@.map_values(|p: Vec<Command>| p@).skip(i + 1),
                ),
                seen@.len() == acc@.len(),
                forall|k: int|
                    0 <= k < acc@.len() ==> (#[trigger] seen@[k])@ == lower_of(acc@[k].trigger@),
                forall|a: int, b: int|
                    0 <= a < b < acc@.len() ==> lower_of((#[trigger] acc@[a]).trigger@)
                        != lower_of((#[trigger] acc@[b]).trigger@),
            decreases part@.len() - j,
        {
            let cmd = Command { trigger: part[j].trigger.clone(), action: part[j].action.clone() };
            proof {
                assert(cmd == part@[j as int]);
                assert(part@.skip(j as int)[0] == part@[j as int]);
                assert(part@.skip(j as int).drop_first() =~= part@.skip(j + 1));
            }
            let low = to_lower(cmd.trigger.as_str());
            if contains_string(&seen, &low) {
                proof {
                    let a = choose|a: int|
                        0 <= a < seen@.len() && (#[trigger] seen@[a])@ == low@;
                    assert(all[a] == acc@[a]);
                    assert(all[acc@.len() as int] == part@.skip(j as int)[0]);
                    assert(lower_of(all[a].trigger@) == lower_of(
                        all[acc@.len() as int].trigger@,
                    ));
                    assert(has_duplicate_trigger(all));
                }
                return Err(ConfigError::DuplicateTrigger);
            }
            let ghost acc_old = acc@;
            let ghost seen_old = seen@;
            let ghost low_view = low@;
            seen.push(low);
            acc.push(cmd);
            proof {
                assert(acc@ + part@.skip(j + 1) + concat_commands(
                    parts@.map_values(|p: Vec<Command>| p@).skip(i + 1),
                ) =~= all);
                assert forall|a: int, b: int| 0 <= a < b < acc@.len() implies lower_of(
                    (#[trigger] acc@[a]).trigger@,
                ) != lower_of((#[trigger] acc@[b]).trigger@) by {
                    if b == acc@.len() - 1 {
                        assert(acc@[b] == cmd);
                        assert(acc@[a] == acc_old[a]);
                        assert(seen_old.map_values(|x: String| x@)[a] == seen_old[a]@);
                        assert(seen_old[a]@ != low_view);
                    } else {
                        assert(acc@[a] == acc_old[a]);
                        assert(acc@[b] == acc_old[b]);
                    }
                }
            }
            j += 1;
        }
        proof {
            assert(part@.skip(part@.len() as int) =~= Seq::<Command>::empty());
            assert(acc@ + Seq::<Command>::empty() + concat_commands(
                parts@.map_values(|p: Vec<Command>| p@).skip(i + 1),
            ) =~= acc@ + concat_commands(parts@.map_values(|p: Vec<Command>| p@).skip(i + 1)));
        }
        i += 1;
    }
    proof {
        assert(parts@.map_values(|p: Vec<Command>| p@).skip(parts@.len() as int)
            =~= Seq::<Seq<Command>>::empty());
        assert(acc@ + Seq::<Command>::empty() =~= acc@);
        assert(acc@ == all);
        if has_duplicate_trigger(all) {
            let (a, b) = choose|a: int, b: int|
                0 <= a < b < all.len() && lower_of((#[trigger] all[a]).trigger@) == lower_of(
                    (#[trigger] all[b]).trigger@,
                );
            assert(false);
        }
    }
    if acc.len() == 0 {
        return Err(ConfigError::NoCommands);
    }
    Ok(Config { commands: acc })
}

/// What an action string means.
pub enum ActionKind {
    /// Run the rest of the string as a shell command.
    Shell(String),
    /// Type the whole string as literal text.
    Text(String),
}

/// The action string starts with the `cmd:` shell marker.
pub open spec fn cmd_prefixed(s: Seq<char>) -> bool {
    s.len() >= 4 && s[0] == 'c' && s[1] == 'm' && s[2] == 'd' && s[3] == ':'
}

/// Classify an action string: `cmd:`-prefixed strings name a shell
/// command (the prefix stripped), anything else is literal text.
pub fn parse_action(input: &str) -> (r: ActionKind)
    ensures
        cmd_prefixed(input@) ==> (r matches ActionKind::Shell(rest) && rest@ == input@.skip(4)),
        !cmd_prefixed(input@) ==> (r matches ActionKind::Text(t) && t@ == input@),
{
    let n = input.unicode_len();
    if n >= 4 && input.get_char(0) == 'c' && input.get_char(1) == 'm' && input.get_char(2) == 'd'
        && input.get_char(3) == ':' {
        let v = chars_of(input);
        let mut rest: Vec<char> = Vec::new();
        let mut i: usize = 4;
        proof {
            assert(rest@ =~= v@.subrange(4, 4));
        }
        while i < v.len()
            invariant
                4 <= i <= v@.len(),
                v@.len() >= 4,
                rest@ == v@.subrange(4, i as int),
            decreases v@.len() - i,
        {
            rest.push(v[i]);
            proof {
                assert(rest@ =~= v@.subrange(4, i + 1));
            }
            i += 1;
        }
        proof {
            assert(v@.subrange(4, v@.len() as int) =~= input@.skip(4));
        }
        ActionKind::Shell(string_from_chars(&rest))
    } else {
        ActionKind::Text(input.to_owned())
    }
}

} // verus!
