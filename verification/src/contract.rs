//! A setting that cannot be honoured is an error that names it, never a silent
//! substitution; the permissive mode substitutes, and says so.

use vstd::prelude::*;

use crate::error::{Error, Failure};
use crate::text::{copy, lemma_texts_push, push_text, texts};

verus! {

/// Whether a setting that cannot be honoured is replaced rather than refused.
#[derive(Clone, Copy, Debug, PartialEq, Eq, Structural)]
pub struct Policy {
    pub permissive: bool,
}

/// The text of a refusal: the setting, the value, why, and what there is instead.
pub open spec fn refusal(
    setting: Seq<char>,
    value: Seq<char>,
    menu: Seq<char>,
    note: Seq<char>,
    fallback: Seq<char>,
) -> Seq<char> {
    setting + ": '"@ + value + "' is not supported"@ + (if note.len() > 0 {
        " - "@ + note
    } else {
        Seq::empty()
    }) + (if menu.len() > 0 {
        "; available: "@ + menu
    } else {
        Seq::empty()
    }) + "; -permissive would use: "@ + fallback
}

/// The text for a value that does not read.
pub open spec fn unread(setting: Seq<char>, value: Seq<char>, want: Seq<char>) -> Seq<char> {
    setting + ": cannot read '"@ + value + "': "@ + want + "; -permissive would go on without it"@
}

/// What the policy makes of a refusal.
pub open spec fn decided<T>(p: Policy, text: Seq<char>, fallback: T) -> Result<T, Failure> {
    if p.permissive {
        Ok(fallback)
    } else {
        Err(Failure::Config(text))
    }
}

/// The policy that passes nothing over.
pub open spec fn strict() -> Policy {
    Policy { permissive: false }
}

/// What is said of an outcome: the refusal that was passed over to get it, which is
/// what the strict policy gives.
pub open spec fn passed_over<T>(strict: Result<T, Failure>, got: Result<T, Failure>) -> Seq<
    Seq<char>,
> {
    match (strict, got) {
        (Err(Failure::Config(t)), Ok(_)) => seq![t],
        _ => Seq::empty(),
    }
}

/// Does a result agree with what is specified?
pub open spec fn agrees<T>(r: Result<T, Error>, want: Result<T, Failure>) -> bool {
    match (r, want) {
        (Ok(a), Ok(b)) => a == b,
        (Err(e), Err(f)) => e@ == f,
        _ => false,
    }
}

/// Raise a refusal, or note it and go on with what stands in.
fn settle<T>(p: Policy, text: String, fallback: T, notes: &mut Vec<String>) -> (r: Result<T, Error>)
    ensures
        agrees(r, decided(p, text@, fallback)),
        texts(final(notes)@) == texts(old(notes)@) + passed_over(
            decided(strict(), text@, fallback),
            decided(p, text@, fallback),
        ),
{
    if p.permissive {
        proof {
            lemma_texts_push(notes@, text);
        }
        notes.push(text);
        Ok(fallback)
    } else {
        Err(Error::Config(text))
    }
}

/// Refuse a setting, saying why, or substitute for it and note the refusal that was
/// passed over.
pub fn unsupported_note<T>(
    p: Policy,
    setting: &str,
    value: &str,
    menu: &str,
    note: &str,
    fallback_name: &str,
    fallback: T,
    notes: &mut Vec<String>,
) -> (r: Result<T, Error>)
    ensures
        texts(final(notes)@) == texts(old(notes)@) + passed_over(
            decided(strict(), refusal(setting@, value@, menu@, note@, fallback_name@), fallback),
            decided(p, refusal(setting@, value@, menu@, note@, fallback_name@), fallback),
        ),
        agrees(
            r,
            decided(p, refusal(setting@, value@, menu@, note@, fallback_name@), fallback),
        ),
{
    let mut m = copy(setting);
    push_text(&mut m, ": '");
    push_text(&mut m, value);
    push_text(&mut m, "' is not supported");
    assert(m@ + Seq::<char>::empty() =~= m@);
    if !note.is_empty() {
        push_text(&mut m, " - ");
        push_text(&mut m, note);
        assert(m@ =~= setting@ + ": '"@ + value@ + "' is not supported"@ + (" - "@ + note@));
    }
    let ghost so_far = m@;
    assert(m@ + Seq::<char>::empty() =~= m@);
    if !menu.is_empty() {
        push_text(&mut m, "; available: ");
        push_text(&mut m, menu);
        assert(m@ =~= so_far + ("; available: "@ + menu@));
    }
    push_text(&mut m, "; -permissive would use: ");
    push_text(&mut m, fallback_name);
    settle(p, m, fallback, notes)
}

/// Refuse a setting, or substitute for it and note the refusal.
pub fn unsupported<T>(
    p: Policy,
    setting: &str,
    value: &str,
    menu: &str,
    fallback_name: &str,
    fallback: T,
    notes: &mut Vec<String>,
) -> (r: Result<T, Error>)
    ensures
        texts(final(notes)@) == texts(old(notes)@) + passed_over(
            decided(
                strict(),
                refusal(setting@, value@, menu@, Seq::empty(), fallback_name@),
                fallback,
            ),
            decided(p, refusal(setting@, value@, menu@, Seq::empty(), fallback_name@), fallback),
        ),
        agrees(
            r,
            decided(p, refusal(setting@, value@, menu@, Seq::empty(), fallback_name@), fallback),
        ),
{
    proof {
        reveal_strlit("");
        assert(""@ =~= Seq::<char>::empty());
    }
    unsupported_note(p, setting, value, menu, "", fallback_name, fallback, notes)
}

/// Refuse a value that does not read, or go on with another and note the refusal.
pub fn unreadable<T>(
    p: Policy,
    setting: &str,
    value: &str,
    want: &str,
    fallback: T,
    notes: &mut Vec<String>,
) -> (r: Result<T, Error>)
    ensures
        texts(final(notes)@) == texts(old(notes)@) + passed_over(
            decided(strict(), unread(setting@, value@, want@), fallback),
            decided(p, unread(setting@, value@, want@), fallback),
        ),
        agrees(r, decided(p, unread(setting@, value@, want@), fallback)),
{
    let mut m = copy(setting);
    push_text(&mut m, ": cannot read '");
    push_text(&mut m, value);
    push_text(&mut m, "': ");
    push_text(&mut m, want);
    push_text(&mut m, "; -permissive would go on without it");
    settle(p, m, fallback, notes)
}

} // verus!
