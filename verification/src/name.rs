//! Names of shared memory objects.

use crate::error::ShmError;
use vstd::prelude::*;
use vstd::string::*;

verus! {

/// The name under which the system knows a queue: the given one, with a slash before it unless it
/// starts with one.
pub open spec fn object_name(name: Seq<char>) -> Seq<char> {
    if name.len() > 0 && name[0] == '/' {
        name
    } else {
        seq!['/'] + name
    }
}

/// Checks a name and gives it a leading slash. The result holds no zero byte, so that it can be
/// handed to the system as a C string; the terminating zero is not part of it.
pub fn to_cstring(name: &str) -> (result: Result<String, ShmError>)
    ensures
        result == Err::<String, ShmError>(ShmError::EmptyName) <==> name@.len() == 0,
        result == Err::<String, ShmError>(ShmError::NameContainsNul) <==> name@.contains('\0'),
        result is Ok <==> name@.len() > 0 && !name@.contains('\0'),
        result matches Ok(text) ==> {
            &&& text@ == object_name(name@)
            &&& text@[0] == '/'
            &&& name@[0] == '/' ==> text@ == name@
            &&& name@[0] != '/' ==> text@.len() == name@.len() + 1 && text@.skip(1) == name@
            &&& !text@.contains('\0')
        },
{
    if name.is_empty() {
        return Err(ShmError::EmptyName);
    }
    let mut actual: String = String::new();
    if name.get_char(0) != '/' {
        actual.append("/");
    }
    actual.append(name);
    let mut nul: bool = false;
    for c in chars: actual.chars()
        invariant
            chars.seq() == actual@,
            nul <==> exists|i: int| 0 <= i < chars.index() && actual@[i] == '\0',
    {
        if c == '\0' {
            nul = true;
        }
    }
    proof {
        reveal_strlit("/");
        assert(actual@ =~= object_name(name@));
        if name@[0] != '/' {
            assert(actual@.skip(1) =~= name@);
        }
        let shift = actual@.len() - name@.len();
        assert forall|i: int| 0 <= i < name@.len() implies actual@[i + shift]
            == #[trigger] name@[i] by {}
        if nul {
            let i = choose|i: int| 0 <= i < actual@.len() && actual@[i] == '\0';
            assert(name@[i - shift] == '\0');
        }
    }
    if nul {
        Err(ShmError::NameContainsNul)
    } else {
        Ok(actual)
    }
}

/// The object name keeps the whole of the given name: it ends with all its characters, in order, and
/// what comes before them is at most one slash. It starts with a slash, and a name that starts with
/// one is kept as it is.
pub proof fn law_object_name_keeps_the_name(name: Seq<char>)
    requires
        name.len() > 0,
    ensures
        ({
            let object = object_name(name);
            let added = object.len() - name.len();
            &&& 0 <= added <= 1
            &&& object.skip(added) == name
            &&& object[0] == '/'
            &&& added == 0 <==> name[0] == '/'
        }),
{
    let object = object_name(name);
    assert(object.skip(object.len() - name.len()) =~= name);
}

/// Different names are names of different objects, unless they differ by one leading slash alone.
pub proof fn law_different_names_are_different_objects(a: Seq<char>, b: Seq<char>)
    requires
        a.len() > 0,
        b.len() > 0,
    ensures
        object_name(a) == object_name(b) <==> {
            ||| a == b
            ||| a[0] == '/' && b[0] != '/' && a.skip(1) == b
            ||| b[0] == '/' && a[0] != '/' && b.skip(1) == a
        },
{
    law_object_name_keeps_the_name(a);
    law_object_name_keeps_the_name(b);
    if a[0] == '/' && b[0] != '/' && a.skip(1) == b {
        assert(a =~= seq!['/'] + b) by {
            assert forall|i: int| 1 <= i < a.len() implies a[i] == (seq!['/'] + b)[i] by {
                assert(a.skip(1)[i - 1] == a[i]);
            }
        }
    }
    if b[0] == '/' && a[0] != '/' && b.skip(1) == a {
        assert(b =~= seq!['/'] + a) by {
            assert forall|i: int| 1 <= i < b.len() implies b[i] == (seq!['/'] + a)[i] by {
                assert(b.skip(1)[i - 1] == b[i]);
            }
        }
    }
}

} // verus!
