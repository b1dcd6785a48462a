//! Verified core of a spelling-check service for GitHub repositories: the
//! greeting job, the chunking of repository files, the reading of the
//! language model's answer and the decisions of the spelling job.

pub mod apis;
pub mod jobs;
pub mod json;
pub mod llm;
pub mod text;

use vstd::prelude::*;

verus! {

/// The greeting text for `who`: `Hello, {who}!`.
pub open spec fn greeting(who: Seq<char>) -> Seq<char> {
    "Hello, "@ + who + "!"@
}

/// The greeting keeps the whole name: it is seven characters of
/// `Hello, `, then every character of `who` in order, then `!`, and
/// nothing else.
pub proof fn lemma_greeting_holds_name(who: Seq<char>)
    ensures
        greeting(who).len() == who.len() + 8,
        greeting(who).subrange(0, 7) == "Hello, "@,
        greeting(who).subrange(7, 7 + who.len() as int) == who,
        greeting(who)[7 + who.len() as int] == '!',
        forall|i: int| 0 <= i < who.len() ==> #[trigger] greeting(who)[7 + i] == who[i],
{
    reveal_strlit("Hello, ");
    reveal_strlit("!");
    let g = greeting(who);
    assert(g.subrange(0, 7) =~= "Hello, "@);
    assert(g.subrange(7, 7 + who.len() as int) =~= who);
}

/// Returns "Hello, {who}!"
pub fn say_hello(who: String) -> (r: Result<String, std::convert::Infallible>)
    ensures
        r matches Ok(s) && s@ == greeting(who@),
        r matches Ok(s) && s@ == "Hello, "@ + who@ + "!"@,
        r matches Ok(s) && s@.len() == who@.len() + 8,
        r matches Ok(s) && s@.subrange(7, 7 + who@.len() as int) == who@,
{
    let mut s = String::from_str("Hello, ");
    s.append(who.as_str());
    s.append("!");
    proof {
        lemma_greeting_holds_name(who@);
    }
    Ok(s)
}

} // verus!
