//! The line form of a persisted inventory: one record per line, written
//! `name;linkAddress`.  Reading tolerates lines without a separator and
//! skips lines without a name; splitting a file into lines and writing
//! lines out is the caller's I/O.

use vstd::prelude::*;
use vstd::string::*;
use crate::inventory::NetworkRecord;

verus! {

/// The characters that do not count as a name on their own: the
/// whitespace set of the Rust standard library's `char::is_whitespace`.
pub open spec fn is_blank_char(c: char) -> bool {
    ||| c == ' '
    ||| c == '\t'
    ||| c == '\n'
    ||| c == '\r'
    ||| c == '\u{000B}'
    ||| c == '\u{000C}'
    ||| c == '\u{0085}'
    ||| c == '\u{00A0}'
    ||| c == '\u{1680}'
    ||| ('\u{2000}' <= c && c <= '\u{200A}')
    ||| c == '\u{2028}'
    ||| c == '\u{2029}'
    ||| c == '\u{202F}'
    ||| c == '\u{205F}'
    ||| c == '\u{3000}'
}

fn is_blank(c: char) -> (b: bool)
    ensures
        b == is_blank_char(c),
{
    c == ' ' || c == '\t' || c == '\n' || c == '\r' || c == '\u{000B}' || c == '\u{000C}'
        || c == '\u{0085}' || c == '\u{00A0}' || c == '\u{1680}' || ('\u{2000}' <= c && c
        <= '\u{200A}') || c == '\u{2028}' || c == '\u{2029}' || c == '\u{202F}' || c == '\u{205F}'
        || c == '\u{3000}'
}

/// The text of one record: its name, a semicolon, its link address.
pub open spec fn record_line_text(name: Seq<char>, link: Seq<char>) -> Seq<char> {
    name + seq![';'] + link
}

/// Write one record as a line of the inventory file.
pub fn format_record(rec: &NetworkRecord) -> (line: String)
    ensures
        line@ == record_line_text(rec.name@, rec.link_address@),
{
    let mut s = String::new();
    s.append(rec.name.as_str());
    s.append(";");
    s.append(rec.link_address.as_str());
    proof {
        reveal_strlit(";");
        assert(";"@ =~= seq![';']);
        assert(s@ =~= record_line_text(rec.name@, rec.link_address@));
    }
    s
}

/// `i` splits `s` at its first semicolon: everything before `i` is the
/// name, everything after it the link address.  Without a semicolon the
/// whole line is the name.
pub open spec fn is_semi_split(s: Seq<char>, i: int) -> bool {
    &&& 0 <= i <= s.len()
    &&& (i == s.len() || s[i] == ';')
    &&& forall|j: int| 0 <= j < i ==> s[j] != ';'
}

/// The index of the first semicolon of `line`, or its length.
fn find_semi(line: &str) -> (i: usize)
    ensures
        is_semi_split(line@, i as int),
{
    let n = line.unicode_len();
    let mut i: usize = 0;
    while i < n
        invariant
            i <= n,
            n == line@.len(),
            forall|j: int| 0 <= j < i ==> line@[j] != ';',
        decreases n - i,
    {
        if line.get_char(i) == ';' {
            return i;
        }
        i = i + 1;
    }
    i
}

/// Whether any of the first `end` characters is not blank.
fn has_name(line: &str, end: usize) -> (b: bool)
    requires
        end <= line@.len(),
    ensures
        b == exists|j: int| 0 <= j < end && !is_blank_char(line@[j]),
{
    let mut i: usize = 0;
    while i < end
        invariant
            i <= end,
            end <= line@.len(),
            forall|j: int| 0 <= j < i ==> is_blank_char(line@[j]),
        decreases end - i,
    {
        if !is_blank(line.get_char(i)) {
            return true;
        }
        i = i + 1;
    }
    false
}

/// Read one line of an inventory file.
///
/// The line splits at its first semicolon; a line without one is all
/// name and gets an empty link address.  A line whose name part is
/// entirely blank carries no record and yields nothing.
pub fn parse_record_line(line: &str) -> (r: Option<NetworkRecord>)
    ensures
        forall|i: int| #[trigger]
            is_semi_split(line@, i) ==> ((r is Some) <==> exists|j: int|
                0 <= j < i && !is_blank_char(line@[j])),
        r matches Some(rec) ==> forall|i: int| #[trigger]
            is_semi_split(line@, i) ==> rec.name@ == line@.subrange(0, i) && rec.link_address@
                == (if i < line@.len() {
                    line@.subrange(i + 1, line@.len() as int)
                } else {
                    Seq::<char>::empty()
                }),
{
    let n = line.unicode_len();
    let i = find_semi(line);
    proof {
        // the split is unique: of two candidates the smaller would sit
        // strictly before a semicolon that the larger rules out
        assert forall|i2: int| #[trigger] is_semi_split(line@, i2) implies i2 == i as int by {
            if i2 < i as int {
                assert(line@[i2] == ';');
            }
            if i2 > i as int {
                assert(line@[i as int] == ';');
            }
        }
    }
    if !has_name(line, i) {
        return None;
    }
    let name = String::from_str(line.substring_char(0, i));
    let link = if i < n {
        String::from_str(line.substring_char(i + 1, n))
    } else {
        String::new()
    };
    Some(NetworkRecord { name, link_address: link })
}

/// Law: a formatted record line splits back at the semicolon that
/// `format_record` wrote.  With `parse_record_line`'s contract this
/// gives the round trip: a line written for a record whose name holds
/// no semicolon and at least one non-blank character parses back to
/// the same name and link address.
pub proof fn lemma_record_line_split(name: Seq<char>, link: Seq<char>)
    requires
        forall|j: int| 0 <= j < name.len() ==> name[j] != ';',
    ensures
        is_semi_split(record_line_text(name, link), name.len() as int),
        record_line_text(name, link).subrange(0, name.len() as int) == name,
        record_line_text(name, link).subrange(
            name.len() as int + 1,
            record_line_text(name, link).len() as int,
        ) == link,
{
    let t = record_line_text(name, link);
    assert(t[name.len() as int] == ';');
    assert(t.subrange(0, name.len() as int) =~= name);
    assert(t.subrange(name.len() as int + 1, t.len() as int) =~= link);
}

} // verus!
