//! What the rules of the databases come to.
use crate::laws::rendering::name_char;
use crate::models::Server;
use crate::paths;
use crate::services::databases;
use crate::services::databases::{
    DbError, DbSize, DirAction, DirEntry, DirStep, FileState, OpenPlan, PathState, SqlAction,
};
use crate::text;
use vstd::prelude::*;
use vstd::string::*;

verus! {

/// Whether an action writes: to a table, or to the schema, lasting or temporary.
pub open spec fn writes(a: SqlAction) -> bool {
    ||| a is Insert || a is Update || a is Delete
    ||| a is CreateTable || a is DropTable || a is AlterTable
    ||| a is CreateIndex || a is DropIndex
    ||| a is CreateView || a is DropView
    ||| a is CreateTrigger || a is DropTrigger
    ||| a is CreateTempTable || a is DropTempTable
    ||| a is CreateTempIndex || a is DropTempIndex
    ||| a is CreateTempView || a is DropTempView
    ||| a is CreateTempTrigger || a is DropTempTrigger
}

/// What writes is denied exactly where the connection only reads: one that may
/// write is allowed all of it.
pub proof fn law_writing_is_denied_to_readers_alone(a: SqlAction, read_only: bool)
    requires
        writes(a),
    ensures
        databases::is_denied(a, read_only) == read_only,
{
}

/// What reaches beyond the server's own database is denied to every connection.
pub proof fn law_reaching_out_is_always_denied(a: SqlAction, read_only: bool)
    requires
        a is Attach || a is Detach || a is CreateVtable || a is DropVtable || a is Reindex || a
            is Analyze,
    ensures
        databases::is_denied(a, read_only),
{
}

/// Reading is denied to no connection.
pub proof fn law_reading_is_always_allowed(a: SqlAction, read_only: bool)
    requires
        a is Other,
    ensures
        !databases::is_denied(a, read_only),
{
}

/// A function is denied by its name alone, in whatever case it is written: the four
/// that reach files are, all others are not.
pub proof fn law_functions_that_reach_files_are_denied(a: SqlAction, b: SqlAction, read_only: bool)
    requires
        a is Function,
        b is Function,
    ensures
        text::lowered(a->Function_name@) == text::lowered(b->Function_name@)
            ==> databases::is_denied(a, read_only) == databases::is_denied(b, true),
        ["load_extension"@, "readfile"@, "writefile"@, "edit"@]@.contains(
            text::lowered(a->Function_name@),
        ) == databases::is_denied(a, read_only),
{
    reveal_strlit("load_extension");
    reveal_strlit("readfile");
    reveal_strlit("writefile");
    reveal_strlit("edit");
    let w = seq!["load_extension"@, "readfile"@, "writefile"@, "edit"@];
    assert(["load_extension"@, "readfile"@, "writefile"@, "edit"@]@ =~= w);
    assert forall|i: int| 0 <= i < 4 implies text::lowered(#[trigger] w[i]) == w[i] by {
        assert(text::lowered(w[i]) =~= w[i]);
    }
    assert(w[0] == "load_extension"@ && w[1] == "readfile"@ && w[2] == "writefile"@ && w[3]
        == "edit"@);
}

/// A setting that is changed is denied, and one that is read is not, but for the
/// three that point into the file system or open the schema.
pub proof fn law_settings_can_be_read_alone(a: SqlAction, read_only: bool)
    requires
        a is Pragma,
    ensures
        a->has_value ==> databases::is_denied(a, read_only),
        !a->has_value ==> databases::is_denied(a, read_only) == [
            "writable_schema"@,
            "temp_store_directory"@,
            "data_store_directory"@,
        ]@.contains(text::lowered(a->Pragma_name@)),
{
    let w = seq!["writable_schema"@, "temp_store_directory"@, "data_store_directory"@];
    assert(["writable_schema"@, "temp_store_directory"@, "data_store_directory"@]@ =~= w);
    assert(w[0] == "writable_schema"@ && w[1] == "temp_store_directory"@ && w[2]
        == "data_store_directory"@);
}

/// The byte budget of a server is a quarter of its disk, and 256 MiB at least.
pub proof fn law_byte_budget(disk_mb: i64, more: i64)
    ensures
        databases::byte_cap(disk_mb) >= 256 * 1024 * 1024,
        0 <= disk_mb <= 1024 ==> databases::byte_cap(disk_mb) == 256 * 1024 * 1024,
        1024 <= disk_mb <= 17_592_186_044_415 ==> databases::byte_cap(disk_mb) * 4 == disk_mb
            * 1024 * 1024,
        0 <= disk_mb <= more ==> databases::byte_cap(disk_mb) <= databases::byte_cap(more),
{
}

/// A name of letters, digits and underscores, of 64 at most, is that of a database;
/// so are two of them with a dot or a dash between.
pub proof fn law_plain_names_are_valid(a: Seq<char>, sep: char, b: Seq<char>)
    requires
        a.len() > 0,
        b.len() > 0,
        a.len() + b.len() < 64,
        forall|i: int| 0 <= i < a.len() ==> name_char(#[trigger] a[i]),
        forall|i: int| 0 <= i < b.len() ==> name_char(#[trigger] b[i]),
        sep == '.' || sep == '-',
    ensures
        databases::valid_name(a),
        databases::valid_name(a.push(sep) + b),
{
    let s = a.push(sep) + b;
    assert(name_char(a[0]));
    assert forall|i: int| 0 <= i < s.len() implies (i == a.len() || name_char(#[trigger] s[i])) by {
        if i > a.len() {
            assert(s[i] == b[i - a.len() - 1]);
        }
    }
    assert(s[a.len() as int] == sep);
    assert forall|i: int| 0 <= i < s.len() - 1 implies !(#[trigger] s[i] == '.' && s[i + 1] == '.') by {
        assert(i == a.len() || name_char(s[i]));
        assert(i + 1 == a.len() || name_char(s[i + 1]));
    }
}

/// A name with a slash, with white space, with two dots together or a dot in front,
/// and one that is empty or too long, is none of a database.
pub proof fn law_other_names_are_refused(s: Seq<char>, i: int)
    requires
        0 <= i < s.len(),
        s[i] == '/' || s[i] == '\\' || s[i] == '\0' || s[i] == '\'' || s[i] == '"' || s[i] == ';'
            || text::is_space(s[i]) || s[i] as u32 >= 128 || (s[i] == '.' && (i == 0 || s[i - 1]
            == '.')) || s.len() > 64,
    ensures
        !databases::valid_name(s),
        !databases::valid_name(Seq::empty()),
{
}

proof fn lemma_before_is(line: Seq<char>, stop: char, rest: Seq<char>)
    requires
        forall|i: int| 0 <= i < line.len() ==> #[trigger] line[i] != stop,
        rest.len() > 0 ==> rest[0] == stop,
    ensures
        databases::before(line + rest, stop) == line.len(),
    decreases line.len(),
{
    let s = line + rest;
    if line.len() == 0 {
        assert(s =~= rest);
    } else {
        assert(s[0] == line[0] && line[0] != stop);
        let less = line.drop_first();
        assert(s.drop_first() =~= less + rest);
        assert forall|i: int| 0 <= i < less.len() implies #[trigger] less[i] != stop by {
            assert(less[i] == line[i + 1]);
        }
        lemma_before_is(less, stop, rest);
    }
}

/// A keyword in a comment to the end of the line is none: only what follows the line
/// counts.
pub proof fn law_line_comment_is_passed_over(line: Seq<char>, rest: Seq<char>, kw: Seq<char>)
    requires
        forall|i: int| 0 <= i < line.len() ==> #[trigger] line[i] != '\n',
        rest.len() > 0 ==> rest[0] == '\n',
    ensures
        databases::has_keyword(seq!['-', '-'] + line + rest, kw) == databases::has_keyword(rest, kw),
{
    let opening = seq!['-', '-'] + line;
    let s = opening + rest;
    assert forall|i: int| 0 <= i < opening.len() implies #[trigger] opening[i] != '\n' by {
        if i >= 2 {
            assert(opening[i] == line[i - 2]);
        }
    }
    lemma_before_is(opening, '\n', rest);
    assert(s.skip(opening.len() as int) =~= rest);
    assert(!databases::starts_word('-'));
}

proof fn lemma_comment_is(inner: Seq<char>, rest: Seq<char>)
    requires
        forall|i: int| 0 <= i < inner.len() ==> !(#[trigger] inner[i] == '*' && (inner + seq!['*', '/'])[i + 1] == '/'),
    ensures
        databases::comment_len(inner + seq!['*', '/'] + rest) == inner.len() + 2,
    decreases inner.len(),
{
    let s = inner + seq!['*', '/'] + rest;
    if inner.len() == 0 {
        assert(s[0] == '*' && s[1] == '/');
    } else {
        let less = inner.drop_first();
        let closed = inner + seq!['*', '/'];
        assert(s[0] == inner[0] && s[1] == closed[1]);
        assert(!(inner[0] == '*' && closed[1] == '/'));
        assert(s.drop_first() =~= less + seq!['*', '/'] + rest);
        assert forall|i: int| 0 <= i < less.len() implies !(#[trigger] less[i] == '*' && (less + seq![
            '*',
            '/',
        ])[i + 1] == '/') by {
            assert(less[i] == inner[i + 1]);
            assert((less + seq!['*', '/'])[i + 1] == closed[i + 2]);
            assert(!(inner[i + 1] == '*' && closed[(i + 1) + 1] == '/'));
        }
        lemma_comment_is(less, rest);
    }
}

/// A keyword in a block comment is none: only what follows its end counts.
pub proof fn law_block_comment_is_passed_over(inner: Seq<char>, rest: Seq<char>, kw: Seq<char>)
    requires
        forall|i: int| 0 <= i < inner.len() ==> !(#[trigger] inner[i] == '*' && (inner + seq!['*', '/'])[i + 1] == '/'),
    ensures
        databases::has_keyword(seq!['/', '*'] + inner + seq!['*', '/'] + rest, kw)
            == databases::has_keyword(rest, kw),
{
    let s = seq!['/', '*'] + inner + seq!['*', '/'] + rest;
    lemma_comment_is(inner, rest);
    assert(s.skip(2) =~= inner + seq!['*', '/'] + rest);
    assert(s[0] == '/' && s[1] == '*');
    assert(s.skip(inner.len() as int + 4) =~= rest);
    assert(!databases::starts_word('/'));
}

proof fn lemma_quoted_is(inner: Seq<char>, quote: char, rest: Seq<char>)
    requires
        forall|i: int| 0 <= i < inner.len() ==> #[trigger] inner[i] != quote,
        rest.len() > 0 ==> rest[0] != quote,
    ensures
        databases::quoted_len(inner + seq![quote] + rest, quote) == inner.len() + 1,
    decreases inner.len(),
{
    let s = inner + seq![quote] + rest;
    if inner.len() == 0 {
        assert(s[0] == quote);
        if s.len() > 1 {
            assert(s[1] == rest[0]);
        }
    } else {
        let less = inner.drop_first();
        assert(s[0] == inner[0] && inner[0] != quote);
        assert(s.drop_first() =~= less + seq![quote] + rest);
        assert forall|i: int| 0 <= i < less.len() implies #[trigger] less[i] != quote by {
            assert(less[i] == inner[i + 1]);
        }
        lemma_quoted_is(less, quote, rest);
    }
}

/// A keyword in quotes is none: only what follows the closing quote counts.
pub proof fn law_quoted_text_is_passed_over(
    inner: Seq<char>,
    quote: char,
    rest: Seq<char>,
    kw: Seq<char>,
)
    requires
        quote == '\'' || quote == '"' || quote == '`',
        forall|i: int| 0 <= i < inner.len() ==> #[trigger] inner[i] != quote,
        rest.len() > 0 ==> rest[0] != quote,
    ensures
        databases::has_keyword(seq![quote] + inner + seq![quote] + rest, kw)
            == databases::has_keyword(rest, kw),
{
    let s = seq![quote] + inner + seq![quote] + rest;
    lemma_quoted_is(inner, quote, rest);
    assert(s.drop_first() =~= inner + seq![quote] + rest);
    assert(s[0] == quote);
    assert(s.skip(inner.len() as int + 2) =~= rest);
    assert(!databases::starts_word(quote));
}

/// A keyword in brackets is none: only what follows the closing bracket counts.
pub proof fn law_bracketed_name_is_passed_over(inner: Seq<char>, rest: Seq<char>, kw: Seq<char>)
    requires
        forall|i: int| 0 <= i < inner.len() ==> #[trigger] inner[i] != ']',
    ensures
        databases::has_keyword(seq!['['] + inner + seq![']'] + rest, kw) == databases::has_keyword(
            rest,
            kw,
        ),
{
    let opening = seq!['['] + inner;
    let s = seq!['['] + inner + seq![']'] + rest;
    assert(s =~= opening + (seq![']'] + rest));
    assert forall|i: int| 0 <= i < opening.len() implies #[trigger] opening[i] != ']' by {
        if i > 0 {
            assert(opening[i] == inner[i - 1]);
        }
    }
    lemma_before_is(opening, ']', seq![']'] + rest);
    assert(s[0] == '[');
    assert(s.skip(opening.len() as int + 1) =~= rest);
    assert(!databases::starts_word('['));
}

proof fn lemma_word_is(word: Seq<char>, rest: Seq<char>)
    requires
        forall|i: int| 0 <= i < word.len() ==> name_char(#[trigger] word[i]),
        rest.len() > 0 ==> !name_char(rest[0]),
    ensures
        databases::word_len(word + rest) == word.len(),
    decreases word.len(),
{
    let s = word + rest;
    if word.len() == 0 {
        assert(s =~= rest);
    } else {
        let less = word.drop_first();
        assert(s[0] == word[0] && name_char(word[0]));
        assert(s.drop_first() =~= less + rest);
        assert forall|i: int| 0 <= i < less.len() implies name_char(#[trigger] less[i]) by {
            assert(less[i] == word[i + 1]);
        }
        lemma_word_is(less, rest);
    }
}

/// A bare word counts as a whole: it is the keyword where it is the same in whatever
/// case, and what follows it counts on its own.
pub proof fn law_bare_word_counts_whole(word: Seq<char>, rest: Seq<char>, kw: Seq<char>)
    requires
        word.len() > 0,
        !('0' <= word[0] <= '9'),
        forall|i: int| 0 <= i < word.len() ==> name_char(#[trigger] word[i]),
        rest.len() > 0 ==> !name_char(rest[0]),
    ensures
        databases::has_keyword(word + rest, kw) == (text::lowered(word) == text::lowered(kw)
            || databases::has_keyword(rest, kw)),
{
    let s = word + rest;
    lemma_word_is(word, rest);
    assert(s[0] == word[0] && name_char(word[0]));
    assert(s.take(word.len() as int) =~= word);
    assert(s.skip(word.len() as int) =~= rest);
}

/// A character that opens nothing and starts no word is passed over by itself; of
/// nothing there is no keyword.
pub proof fn law_other_characters_are_passed_over(c: char, rest: Seq<char>, kw: Seq<char>)
    requires
        !name_char(c) || '0' <= c <= '9',
        c != '\'' && c != '"' && c != '`' && c != '[',
        c == '-' && rest.len() > 0 ==> rest[0] != '-',
        c == '/' && rest.len() > 0 ==> rest[0] != '*',
    ensures
        databases::has_keyword(seq![c] + rest, kw) == databases::has_keyword(rest, kw),
        !databases::has_keyword(Seq::empty(), kw),
{
    let s = seq![c] + rest;
    assert(s[0] == c);
    if rest.len() > 0 {
        assert(s[1] == rest[0]);
    }
    assert(s.skip(1) =~= rest);
}

/// A statement runs unless it is longer than a mebibyte or tells to vacuum.
pub proof fn law_statement_runs(sql: Seq<char>)
    ensures
        text::byte_len(sql) <= 1024 * 1024 && !databases::has_keyword(sql, "VACUUM"@)
            <==> databases::statement_error(sql) is None,
        text::byte_len(sql) > 1024 * 1024 ==> databases::statement_error(sql) == Some(
            DbError::StatementTooLong,
        ),
{
}

/// A directory is used only where a real one was seen; what is something else is
/// refused, what is missing is made once, and what cannot be read fails.
pub proof fn law_only_real_directories_are_used(step: DirStep, seen: PathState)
    ensures
        ({
            let a = databases::dir_action(step, seen);
            &&& (a == DirAction::Use || a == DirAction::MakePrivate || a == DirAction::CheckServer)
                == (seen == PathState::Directory)
            &&& a is Refuse == (seen == PathState::Other)
            &&& (a == DirAction::Create) == (seen == PathState::Missing && (step == DirStep::Root
                || step == DirStep::Server))
            &&& seen == PathState::Unreadable ==> a == DirAction::Fail
            &&& (a == DirAction::CheckServer) == (seen == PathState::Directory && (step
                == DirStep::Root || step == DirStep::RootCreated))
            &&& (a == DirAction::MakePrivate) == (seen == PathState::Directory && step
                == DirStep::ServerCreated)
        }),
{
}

/// A database takes the bytes of its file and of both sidecars, as far as numbers
/// go.
pub proof fn law_sidecars_count(main: Option<u64>, wal: Option<u64>, shm: Option<u64>)
    ensures
        ({
            let all = main.unwrap_or(0) + wal.unwrap_or(0) + shm.unwrap_or(0);
            databases::size_of(main, wal, shm) == if all > u64::MAX {
                u64::MAX as int
            } else {
                all
            }
        }),
{
}

/// The bytes of all databases but one do not change with that one, and one more
/// adds its bytes.
pub proof fn law_other_databases_count(dbs: Seq<DbSize>, d: DbSize, name: Seq<char>)
    ensures
        d.name@ == name ==> databases::sum_of(dbs.push(d), Some(name)) == databases::sum_of(
            dbs,
            Some(name),
        ),
        d.name@ != name ==> databases::sum_of(dbs.push(d), Some(name)) == (if databases::sum_of(
            dbs,
            Some(name),
        ) + d.bytes > u64::MAX {
            u64::MAX as int
        } else {
            databases::sum_of(dbs, Some(name)) + d.bytes
        }),
        databases::sum_of(Seq::empty(), Some(name)) == 0,
{
    assert(dbs.push(d).drop_last() =~= dbs);
}

/// What is listed is the name of a regular file that ends in `.db`, without that
/// ending.
pub proof fn law_only_database_files_are_listed(entries: Seq<DirEntry>, k: int) -> (i: int)
    requires
        0 <= k < databases::database_names(entries).len(),
    ensures
        0 <= i < entries.len(),
        entries[i].regular,
        entries[i].name@ == databases::database_names(entries)[k] + ".db"@,
    decreases entries.len(),
{
    reveal_strlit(".db");
    let less = entries.drop_last();
    let before = databases::database_names(less);
    if k < before.len() {
        let i = law_only_database_files_are_listed(less, k);
        assert(less[i] == entries[i]);
        assert(databases::database_names(entries)[k] == before[k]);
        i
    } else {
        let n = entries.last().name@;
        assert(n =~= n.take(n.len() - 3) + n.skip(n.len() - 3));
        entries.len() - 1
    }
}

/// A statement runs on a database if and only if it may run, the budget is kept,
/// and the name is valid; and it is refused for the first of these that fails.
pub proof fn law_statement_on_a_database(server: Server, name: Seq<char>, sql: Seq<char>, total: u64)
    ensures
        databases::exec_error(server, name, sql, total) is None <==> databases::statement_error(
            sql,
        ) is None && total <= databases::byte_cap(server.disk_mb) && databases::valid_name(name),
        databases::statement_error(sql) is Some ==> databases::exec_error(server, name, sql, total)
            == databases::statement_error(sql),
        databases::statement_error(sql) is None && total > databases::byte_cap(server.disk_mb)
            ==> databases::exec_error(server, name, sql, total) == Some(DbError::QuotaExceeded),
        databases::statement_error(sql) is None && total <= databases::byte_cap(server.disk_mb)
            && !databases::valid_name(name) ==> databases::exec_error(server, name, sql, total)
            == Some(DbError::InvalidName),
{
}

/// A regular file is opened. A missing one is made where that is asked for, and
/// nothing else is touched.
pub proof fn law_files_that_are_opened(p: OpenPlan, seen: FileState)
    ensures
        seen == FileState::Regular ==> databases::opens(p, seen) && !databases::makes(p, seen),
        seen == FileState::Missing && p.create ==> databases::opens(p, seen) && databases::makes(
            p,
            seen,
        ),
        seen == FileState::Missing && !p.create ==> !databases::opens(p, seen),
        seen == FileState::Other ==> !databases::opens(p, seen) && !databases::makes(p, seen),
{
}

/// A database lies in the directory of its server, in a file of its name and an
/// ending; its files are that one and its two companions.
pub proof fn law_files_of_a_database(server: Server, root: Seq<char>, name: Seq<char>)
    ensures
        databases::db_file(server, root, name) == paths::joined(
            paths::joined(root, server.uuid@),
            name + seq!['.', 'd', 'b'],
        ),
        databases::stem(name + seq!['.', 'd', 'b']) == name,
        databases::is_database_file(name + seq!['.', 'd', 'b']),
        databases::is_database_file(name + seq!['.', 'd', 'b', '-', 'w', 'a', 'l']),
        databases::is_database_file(name + seq!['.', 'd', 'b', '-', 's', 'h', 'm']),
        name.len() > 0 && name.last() != 'b' && name.last() != 'l' && name.last() != 'm'
            ==> !databases::is_database_file(name),
{
    reveal_strlit(".db");
    reveal_strlit(".db-wal");
    reveal_strlit(".db-shm");
    let a = seq!['.', 'd', 'b'];
    let b = seq!['.', 'd', 'b', '-', 'w', 'a', 'l'];
    let c = seq!['.', 'd', 'b', '-', 's', 'h', 'm'];
    assert(".db"@ =~= a);
    assert(".db-wal"@ =~= b);
    assert(".db-shm"@ =~= c);
    assert((name + a).skip(name.len() as int) =~= a);
    assert((name + b).skip(name.len() as int) =~= b);
    assert((name + c).skip(name.len() as int) =~= c);
    assert((name + a).take(name.len() as int) =~= name);
    if name.len() > 0 {
        if text::finishes_with(name, ".db"@) {
            assert(name.skip(name.len() - 3)[2] == name.last());
        }
        if text::finishes_with(name, ".db-wal"@) {
            assert(name.skip(name.len() - 7)[6] == name.last());
        }
        if text::finishes_with(name, ".db-shm"@) {
            assert(name.skip(name.len() - 7)[6] == name.last());
        }
    }
}

} // verus!
