use vstd::prelude::*;
use vstd::string::*;
use crate::types::ClassKey;

verus! {

/// The character of a decimal digit.
pub open spec fn digit_char(d: nat) -> char {
    if d == 0 { '0' } else if d == 1 { '1' } else if d == 2 { '2' } else if d == 3 { '3' }
    else if d == 4 { '4' } else if d == 5 { '5' } else if d == 6 { '6' } else if d == 7 { '7' }
    else if d == 8 { '8' } else { '9' }
}

/// The decimal representation of `n`, without leading zeros.
pub open spec fn decimal(n: nat) -> Seq<char>
    decreases n,
{
    if n < 10 {
        seq![digit_char(n)]
    } else {
        decimal(n / 10).push(digit_char(n % 10))
    }
}

/// The file name under which the metadata of `key` is stored: application,
/// class and instance id (0 when absent) joined by `_`, then `.json`. A
/// temporary file written during a save carries a uniqueness stamp and `.temp`
/// after that.
pub open spec fn classinfo_file_name(key: ClassKey, temp_stamp: Option<u64>) -> Seq<char> {
    let instanceid: u64 = match key.instanceid {
        Some(i) => i,
        None => 0,
    };
    let base = decimal(key.appid as nat) + seq!['_'] + decimal(key.classid as nat) + seq!['_']
        + decimal(instanceid as nat) + seq!['.', 'j', 's', 'o', 'n'];
    match temp_stamp {
        Some(stamp) => base + seq!['.'] + decimal(stamp as nat) + seq!['.', 't', 'e', 'm', 'p'],
        None => base,
    }
}

fn push_digit(s: &mut String, d: u64)
    requires
        d < 10,
    ensures
        final(s)@ == old(s)@.push(digit_char(d as nat)),
{
    proof {
        reveal_strlit("0");
        reveal_strlit("1");
        reveal_strlit("2");
        reveal_strlit("3");
        reveal_strlit("4");
        reveal_strlit("5");
        reveal_strlit("6");
        reveal_strlit("7");
        reveal_strlit("8");
        reveal_strlit("9");
    }
    let t = if d == 0 { "0" } else if d == 1 { "1" } else if d == 2 { "2" } else if d == 3 { "3" }
    else if d == 4 { "4" } else if d == 5 { "5" } else if d == 6 { "6" } else if d == 7 { "7" }
    else if d == 8 { "8" } else { "9" };
    s.append(t);
}

/// Appends the decimal representation of `n`.
fn push_decimal(s: &mut String, n: u64)
    ensures
        final(s)@ == old(s)@ + decimal(n as nat),
    decreases n,
{
    if n >= 10 {
        push_decimal(s, n / 10);
    }
    push_digit(s, n % 10);
    proof {
        if n >= 10 {
            assert(old(s)@ + decimal(n as nat) =~= (old(s)@ + decimal((n / 10) as nat)).push(
                digit_char((n % 10) as nat),
            ));
        } else {
            assert(old(s)@ + decimal(n as nat) =~= old(s)@.push(digit_char(n as nat)));
        }
    }
}

/// The path of the file that holds the metadata of `class` under
/// `data_directory`; with a stamp, the path of a temporary file for a save.
pub fn get_classinfo_file_path(class: &ClassKey, temp_stamp: Option<u64>, data_directory: &str) -> (r:
    String)
    ensures
        r@ == data_directory@ + seq!['/'] + classinfo_file_name(*class, temp_stamp),
{
    proof {
        reveal_strlit("/");
        reveal_strlit("_");
        reveal_strlit(".json");
        reveal_strlit(".");
        reveal_strlit(".temp");
    }
    let instanceid: u64 = match class.instanceid {
        Some(i) => i,
        None => 0,
    };
    let mut r = String::new();
    r.append(data_directory);
    r.append("/");
    push_decimal(&mut r, class.appid as u64);
    r.append("_");
    push_decimal(&mut r, class.classid);
    r.append("_");
    push_decimal(&mut r, instanceid);
    r.append(".json");
    match temp_stamp {
        Some(stamp) => {
            r.append(".");
            push_decimal(&mut r, stamp);
            r.append(".temp");
        },
        None => {},
    }
    assert(r@ =~= data_directory@ + seq!['/'] + classinfo_file_name(*class, temp_stamp));
    r
}

/// The temporary file a save writes to lies in the same directory as the
/// final files, and its path is never the final path of any class.
pub proof fn temp_path_is_never_a_final_path(dir: Seq<char>, key: ClassKey, stamp: u64, other: ClassKey)
    ensures
        dir + seq!['/'] + classinfo_file_name(key, Some(stamp)) != dir + seq!['/'] + classinfo_file_name(other, None),
{
    let t = dir + seq!['/'] + classinfo_file_name(key, Some(stamp));
    let f = dir + seq!['/'] + classinfo_file_name(other, None);
    assert(t.last() == 'p');
    assert(f.last() == 'n');
}

} // verus!
