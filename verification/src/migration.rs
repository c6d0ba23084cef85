use vstd::prelude::*;
use vstd::string::StrSliceExecFns;
use crate::error::Error;
use crate::schema::{EntryModel, MigrationEntry};

verus! {

/// What SHA-256 makes of a migration's content. The digest is a pure
/// function of the hashed text; nothing further is assumed about it.
pub uninterp spec fn sha256_of(text: Seq<char>) -> Seq<u8>;

/// Relies on openssl::sha::sha256: the digest of the UTF-8 bytes of `text`,
/// 32 bytes, depending on `text` alone.
#[verifier::external_body]
fn sha256_digest(text: &str) -> (r: Vec<u8>)
    ensures
        r@ == sha256_of(text@),
        r@.len() == 32,
{
    openssl::sha::sha256(text.as_bytes()).to_vec()
}

pub open spec fn is_digit(c: char) -> bool {
    '0' <= c && c <= '9'
}

pub open spec fn digit_val(c: char) -> int {
    c as int - '0' as int
}

pub open spec fn all_digits(s: Seq<char>) -> bool {
    forall|i: int| 0 <= i < s.len() ==> is_digit(#[trigger] s[i])
}

/// The number a string of decimal digits denotes.
pub open spec fn digits_val(s: Seq<char>) -> int
    decreases s.len(),
{
    if s.len() == 0 {
        0
    } else {
        digits_val(s.drop_last()) * 10 + digit_val(s.last())
    }
}

/// `d` splits `s` as `<digits>-<name>.sql`: the digits before `d` are
/// nonempty, `s[d]` is the dash, and `s` ends in `.sql`. Since a dash is no
/// digit, at most one `d` can split a given `s`.
pub open spec fn splits_filename(s: Seq<char>, d: int) -> bool {
    &&& 1 <= d
    &&& d + 5 <= s.len()
    &&& s[d] == '-'
    &&& all_digits(s.subrange(0, d))
    &&& s[s.len() - 4] == '.'
    &&& s[s.len() - 3] == 's'
    &&& s[s.len() - 2] == 'q'
    &&& s[s.len() - 1] == 'l'
}

/// A migration filename reads `<version>-<name>.sql`.
pub open spec fn valid_filename(s: Seq<char>) -> bool {
    exists|d: int| splits_filename(s, d)
}

pub open spec fn the_dash(s: Seq<char>) -> int {
    choose|d: int| splits_filename(s, d)
}

pub open spec fn version_num(s: Seq<char>) -> int {
    digits_val(s.subrange(0, the_dash(s)))
}

pub open spec fn name_chars(s: Seq<char>) -> Seq<char> {
    s.subrange(the_dash(s) + 1, s.len() - 4)
}

/// A filename parses when it is well-formed and its version fits the key type.
pub open spec fn parse_ok(filename: Seq<char>) -> bool {
    valid_filename(filename) && version_num(filename) <= i32::MAX
}

proof fn lemma_split_unique(s: Seq<char>, d1: int, d2: int)
    requires
        splits_filename(s, d1),
        splits_filename(s, d2),
    ensures
        d1 == d2,
{
    if d1 < d2 {
        assert(is_digit(s.subrange(0, d2)[d1]));
    }
    if d2 < d1 {
        assert(is_digit(s.subrange(0, d1)[d2]));
    }
}

/// Once the first dash of `s` is known to be at `d` (or absent, `d == len`),
/// no other position can split `s`.
proof fn lemma_only_candidate(s: Seq<char>, d: int)
    requires
        0 <= d <= s.len(),
        d == s.len() || s[d] == '-',
        forall|k: int| 0 <= k < d ==> s[k] != '-',
    ensures
        forall|d2: int| #[trigger] splits_filename(s, d2) ==> d2 == d,
{
    assert forall|d2: int| #[trigger] splits_filename(s, d2) implies d2 == d by {
        if d2 < d {
            assert(s[d2] == '-');
        } else if d2 > d {
            assert(d < s.len());
            assert(is_digit(s.subrange(0, d2)[d]));
        }
    }
}

proof fn lemma_digits_val_nonneg(s: Seq<char>)
    requires
        all_digits(s),
    ensures
        digits_val(s) >= 0,
    decreases s.len(),
{
    if s.len() > 0 {
        assert(all_digits(s.drop_last()));
        lemma_digits_val_nonneg(s.drop_last());
    }
}

/// A longer digit string denotes no smaller a number.
proof fn lemma_digits_val_monotone(s: Seq<char>, i: int)
    requires
        all_digits(s),
        0 <= i <= s.len(),
    ensures
        digits_val(s.subrange(0, i)) <= digits_val(s),
    decreases s.len() - i,
{
    if i == s.len() {
        assert(s.subrange(0, i) =~= s);
    } else {
        lemma_digits_val_monotone(s, i + 1);
        let longer = s.subrange(0, i + 1);
        assert(longer.drop_last() =~= s.subrange(0, i));
        assert(all_digits(longer.drop_last()));
        lemma_digits_val_nonneg(longer.drop_last());
        assert(digits_val(longer) == digits_val(s.subrange(0, i)) * 10 + digit_val(s[i]));
    }
}

/// One migration file: a version ordering the file within its set, a
/// human-readable name, both read off the filename, and the SQL batch the
/// file holds, opaque to this engine.
#[derive(Debug)]
pub struct Migration {
    pub version: i32,
    pub name: String,
    pub sql: String,
}

/// The mathematical content of a migration.
pub ghost struct MigrationModel {
    pub version: int,
    pub name: Seq<char>,
    pub sql: Seq<char>,
}

/// What parsing a well-formed filename together with its content yields.
pub open spec fn spec_parse(filename: Seq<char>, sql: Seq<char>) -> MigrationModel {
    MigrationModel { version: version_num(filename), name: name_chars(filename), sql: sql }
}

/// The history row a migration projects to: its version, its name, and the
/// digest of its content.
pub open spec fn spec_entry(m: MigrationModel) -> EntryModel {
    EntryModel { id: m.version, name: m.name, checksum: sha256_of(m.sql) }
}

fn read_error(filename: &str) -> (e: Error)
    ensures
        e matches Error::MigrationReadError { filename: f } && f@ == filename@,
{
    Error::MigrationReadError { filename: filename.to_owned() }
}

impl Migration {
    pub open spec fn model(self) -> MigrationModel {
        MigrationModel { version: self.version as int, name: self.name@, sql: self.sql@ }
    }

    /// Parse one filename/content pair. Succeeds exactly on filenames of the
    /// form `<version>-<name>.sql` whose version fits an `i32`, and then
    /// returns exactly the migration the pair denotes; any other filename is
    /// rejected, named in the error.
    pub fn new(filename: &str, sql: &str) -> (r: Result<Migration, Error>)
        ensures
            r is Ok <==> parse_ok(filename@),
            r matches Ok(m) ==> m.model() == spec_parse(filename@, sql@),
            r matches Err(e) ==> e matches Error::MigrationReadError { filename: f } && f@
                == filename@,
    {
        let n = filename.unicode_len();
        // Find the first dash; everything before it must be the version.
        let mut d: usize = 0;
        let mut found = false;
        while !found && d < n
            invariant
                d <= n,
                n == filename@.len(),
                found ==> d < n && filename@[d as int] == '-',
                forall|k: int| 0 <= k < d ==> filename@[k] != '-',
            decreases n - d + (if found { 0int } else { 1int }),
        {
            if filename.get_char(d) == '-' {
                found = true;
            } else {
                d += 1;
            }
        }
        proof {
            lemma_only_candidate(filename@, d as int);
        }
        if !found || d == 0 || n - d < 5 {
            return Err(read_error(filename));
        }
        if filename.get_char(n - 4) != '.' || filename.get_char(n - 3) != 's' || filename.get_char(
            n - 2,
        ) != 'q' || filename.get_char(n - 1) != 'l' {
            return Err(read_error(filename));
        }
        // Read the version off the digits before the dash.
        let mut v: u64 = 0;
        let mut i: usize = 0;
        while i < d
            invariant
                0 <= i <= d,
                d + 5 <= n,
                n == filename@.len(),
                filename@[d as int] == '-',
                forall|k: int| 0 <= k < d ==> filename@[k] != '-',
                filename@[n - 4] == '.',
                filename@[n - 3] == 's',
                filename@[n - 2] == 'q',
                filename@[n - 1] == 'l',
                forall|k: int| 0 <= k < i ==> is_digit(#[trigger] filename@[k]),
                v == digits_val(filename@.subrange(0, i as int)),
                v <= 0x7fff_ffff,
            decreases d - i,
        {
            let ghost fs = filename@;
            let c = filename.get_char(i);
            if c < '0' || c > '9' {
                proof {
                    assert forall|d2: int| !#[trigger] splits_filename(fs, d2) by {
                        if splits_filename(fs, d2) {
                            lemma_only_candidate(fs, d as int);
                            assert(is_digit(fs.subrange(0, d as int)[i as int]));
                        }
                    }
                }
                return Err(read_error(filename));
            }
            proof {
                assert(fs.subrange(0, i + 1).drop_last() =~= fs.subrange(0, i as int));
                assert(fs.subrange(0, i + 1).last() == fs[i as int]);
            }
            v = v * 10 + (c as u64 - 48);
            if v > 0x7fff_ffff {
                proof {
                    if valid_filename(fs) {
                        lemma_only_candidate(fs, d as int);
                        let dd = the_dash(fs);
                        assert(splits_filename(fs, dd));
                        assert(dd == d);
                        assert(fs.subrange(0, d as int).subrange(0, i + 1) =~= fs.subrange(
                            0,
                            i + 1,
                        ));
                        lemma_digits_val_monotone(fs.subrange(0, d as int), i + 1);
                    }
                }
                return Err(read_error(filename));
            }
            i += 1;
        }
        proof {
            assert(all_digits(filename@.subrange(0, d as int)));
            assert(splits_filename(filename@, d as int));
            lemma_split_unique(filename@, the_dash(filename@), d as int);
        }
        let name_slice = filename.substring_char(d + 1, n - 4);
        Ok(Migration { version: v as i32, name: name_slice.to_owned(), sql: sql.to_owned() })
    }

    /// The history row this migration would be recorded as: version, name,
    /// and the SHA-256 digest of the SQL content, recomputed from the content
    /// every time.
    pub fn as_entry(&self) -> (e: MigrationEntry)
        ensures
            e.model() == spec_entry(self.model()),
    {
        MigrationEntry {
            id: self.version,
            name: self.name.clone(),
            checksum: sha256_digest(self.sql.as_str()),
        }
    }
}

} // verus!
