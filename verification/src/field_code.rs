//! Field codes: the places `%f`, `%F`, `%u` and `%U` at which the arguments go
//! into the command of a desktop entry.
use lazy_regex::regex::NoExpand;
use lazy_regex::RegexBuilder;
use vstd::prelude::*;

verus! {

/// Whether a field code stands in `command` at position `i`.
pub open spec fn is_field_code(command: Seq<char>, i: int) -> bool {
    &&& 0 <= i
    &&& i + 1 < command.len()
    &&& command[i] == '%'
    &&& command[i + 1] == 'f' || command[i + 1] == 'F' || command[i + 1] == 'u' || command[i + 1] == 'U'
}

/// Whether `command` holds a field code.
pub open spec fn has_field_code(command: Seq<char>) -> bool {
    exists|i: int| is_field_code(command, i)
}

/// `command` with `args` in the place of each field code.
pub open spec fn substituted(command: Seq<char>, args: Seq<char>) -> Seq<char>
    decreases command.len(),
{
    if command.len() == 0 {
        command
    } else if is_field_code(command, 0) {
        args + substituted(command.skip(2), args)
    } else {
        seq![command[0]] + substituted(command.skip(1), args)
    }
}

/// [`lazy_regex::Regex::is_match`] for the expression `%(f|u)`, in which upper
/// and lower case are the same: whether a field code stands anywhere in the
/// text.
#[verifier::external_body]
pub(crate) fn contains_field_code(command: &str) -> (r: bool)
    ensures
        r == has_field_code(command@),
{
    RegexBuilder::new("%(f|u)").case_insensitive(true).build().unwrap().is_match(command)
}

/// [`lazy_regex::Regex::replace_all`] for the expression `%(f|u)`, in which
/// upper and lower case are the same, with the arguments as
/// [`NoExpand`]: from the left, each match is replaced by the arguments as they
/// are.
#[verifier::external_body]
pub(crate) fn replace_field_codes(command: &str, args: &str) -> (r: String)
    ensures
        r@ == substituted(command@, args@),
{
    let special = RegexBuilder::new("%(f|u)").case_insensitive(true).build().unwrap();
    special.replace_all(command, NoExpand(args)).into_owned()
}

/// Without field codes nothing is replaced.
pub proof fn nothing_to_substitute(command: Seq<char>, args: Seq<char>)
    requires
        !has_field_code(command),
    ensures
        substituted(command, args) == command,
    decreases command.len(),
{
    if command.len() > 0 {
        let rest = command.skip(1);
        assert(!is_field_code(command, 0));
        assert(!has_field_code(rest)) by {
            if has_field_code(rest) {
                let i = choose|i: int| is_field_code(rest, i);
                assert(is_field_code(command, i + 1));
            }
        }
        nothing_to_substitute(rest, args);
        assert(seq![command[0]] + rest =~= command);
    }
}

/// A field code anywhere in the command is replaced by the arguments, and what
/// stands in front of it and behind it is treated on its own.
pub proof fn every_field_code_is_replaced(
    front: Seq<char>,
    letter: char,
    back: Seq<char>,
    args: Seq<char>,
)
    requires
        letter == 'f' || letter == 'F' || letter == 'u' || letter == 'U',
    ensures
        has_field_code(front + seq!['%', letter] + back),
        substituted(front + seq!['%', letter] + back, args) == substituted(front, args) + args
            + substituted(back, args),
    decreases front.len(),
{
    let whole = front + seq!['%', letter] + back;
    assert(whole[front.len() as int] == '%' && whole[front.len() as int + 1] == letter);
    assert(is_field_code(whole, front.len() as int));
    if front.len() == 0 {
        assert(whole.skip(2) =~= back);
        assert(front + args + substituted(back, args) =~= args + substituted(back, args));
    } else if is_field_code(front, 0) {
        assert(whole[0] == front[0] && whole[1] == front[1]);
        assert(whole.skip(2) =~= front.skip(2) + seq!['%', letter] + back);
        every_field_code_is_replaced(front.skip(2), letter, back, args);
        assert(substituted(whole, args) =~= substituted(front, args) + args + substituted(
            back,
            args,
        ));
    } else {
        assert(whole[0] == front[0]);
        assert(!is_field_code(whole, 0)) by {
            if front.len() > 1 {
                assert(whole[1] == front[1]);
            }
        }
        assert(whole.skip(1) =~= front.skip(1) + seq!['%', letter] + back);
        every_field_code_is_replaced(front.skip(1), letter, back, args);
        assert(substituted(whole, args) =~= substituted(front, args) + args + substituted(
            back,
            args,
        ));
    }
}

} // verus!
