//! The access gate: an exact-match credential check against a fixed
//! allow-list. It guards the mutating operations; reads bypass it.

use vstd::prelude::*;

verus! {

/// One allow-list entry: a username together with its expected password.
pub struct Credential {
    pub username: String,
    pub password: String,
}

/// Holds iff the submitted pair exactly matches some entry of the allow-list.
pub open spec fn spec_allows(allowed: Seq<Credential>, username: Seq<char>, password: Seq<char>) -> bool {
    exists|i: int|
        0 <= i < allowed.len() && allowed[i].username@ == username && allowed[i].password@
            == password
}

/// The credential check: succeeds iff the pair exactly matches one entry of
/// `allowed`. Any other input fails, and nothing reveals which half of the
/// pair was wrong.
pub fn validator(username: &String, password: &String, allowed: &Vec<Credential>) -> (ok: bool)
    ensures
        ok == spec_allows(allowed@, username@, password@),
{
    let mut i: usize = 0;
    while i < allowed.len()
        invariant
            i <= allowed@.len(),
            forall|j: int|
                0 <= j < i ==> !(allowed@[j].username@ == username@ && allowed@[j].password@
                    == password@),
        decreases allowed@.len() - i,
    {
        let c = &allowed[i];
        if c.username.eq(username) && c.password.eq(password) {
            assert(spec_allows(allowed@, username@, password@)) by {
                assert(allowed@[i as int].username@ == username@);
            }
            return true;
        }
        i = i + 1;
    }
    false
}

/// The credential check as the HTTP layer sees it: basic authentication may
/// omit the password, and an absent password counts as the empty string, so
/// it can only match an entry whose password is empty.
pub fn validator_opt(username: &String, password: &Option<String>, allowed: &Vec<Credential>) -> (ok: bool)
    ensures
        ok == spec_allows(
            allowed@,
            username@,
            (match password {
                Some(p) => p@,
                None => Seq::empty(),
            }),
        ),
{
    match password {
        Some(p) => validator(username, p, allowed),
        None => {
            let empty = String::new();
            validator(username, &empty, allowed)
        },
    }
}

} // verus!
