//! The files in which the logged-in accounts are kept: one file for each
//! account, named by the email address of the account.

use vstd::prelude::*;
use crate::pattern::chars_of;

verus! {

/// The ending of the name of an account file.
pub open spec fn account_suffix() -> Seq<char> {
    ".json"@
}

/// The name of the file of an account: the email address and `.json`. The
/// address keeps its own ending, such as `.com`.
pub fn account_file_name(email: &str) -> (name: String)
    ensures
        name@ == email@ + account_suffix(),
{
    email.to_owned().concat(".json")
}

/// The email address of the account that a file in the accounts directory
/// belongs to: the name without its ending `.json`. `None` for a file with
/// another ending, which is no account file.
pub fn account_email(file_name: &str) -> (email: Option<String>)
    ensures
        match email {
            Some(e) => file_name@ == e@ + account_suffix(),
            None => !(exists|e: Seq<char>| file_name@ == e + account_suffix()),
        },
{
    let name = chars_of(file_name);
    let n: usize = name.len();
    proof {
        reveal_strlit(".json");
    }
    if n < 5 {
        proof {
            assert forall|e: Seq<char>| file_name@ != e + account_suffix() by {
                assert((e + account_suffix()).len() == e.len() + 5);
            }
        }
        return None;
    }
    let m: usize = n - 5;
    if !(name[m] == '.' && name[m + 1] == 'j' && name[m + 2] == 's' && name[m + 3] == 'o' && name[m
        + 4] == 'n') {
        proof {
            assert forall|e: Seq<char>| file_name@ != e + account_suffix() by {
                let joined = e + account_suffix();
                if file_name@ == joined {
                    assert(joined.len() == e.len() + 5);
                    assert(joined[m as int] == account_suffix()[0]);
                    assert(joined[m + 1] == account_suffix()[1]);
                    assert(joined[m + 2] == account_suffix()[2]);
                    assert(joined[m + 3] == account_suffix()[3]);
                    assert(joined[m + 4] == account_suffix()[4]);
                }
            }
        }
        return None;
    }
    let email: String = file_name.substring_char(0, m).to_owned();
    proof {
        assert(file_name@ =~= email@ + account_suffix());
    }
    Some(email)
}

} // verus!
