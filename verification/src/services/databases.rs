//! Databases service: rules of the per-server SQLite databases.
use crate::encoding;
use crate::models::Server;
use crate::paths;
use crate::text;
use vstd::prelude::*;
use vstd::slice::*;
use vstd::string::*;

verus! {

/// Longest accepted SQL text, in bytes.
pub const MAX_STMT_BYTES: usize = 1024 * 1024;

/// Most rows that a query hands back.
pub const MAX_QUERY_ROWS: usize = 10_000;

/// Largest text or blob cell of a query, in bytes.
pub const MAX_CELL_BYTES: usize = 4 * 1024 * 1024;

/// Largest serialized result of a query, in bytes.
pub const MAX_QUERY_BYTES: usize = 32 * 1024 * 1024;

/// Longest run of a statement, in milliseconds.
pub const EXEC_DEADLINE_MS: u64 = 30_000;

/// Most databases per server.
pub const MAX_DATABASES_PER_SERVER: usize = 16;

/// Smallest byte budget of a server.
pub const DATALAB_BYTE_FLOOR: u64 = 256 * 1024 * 1024;

/// Why a database request was refused.
#[derive(Debug, Clone, Copy, PartialEq, Eq, Structural)]
pub enum DbError {
    InvalidName,
    StatementTooLong,
    VacuumDenied,
    QuotaExceeded,
    TooManyDatabases,
    TooManyRows,
    CellTooLarge,
    ResultTooLarge,
    ImportTooLarge,
    RootNotDirectory,
    ServerPathNotDirectory,
}

impl DbError {
    /// The message of a refusal.
    pub open spec fn text_of(self) -> Seq<char> {
        match self {
            DbError::InvalidName => "invalid database name"@,
            DbError::StatementTooLong => "SQL statement exceeds 1 MiB limit"@,
            DbError::VacuumDenied => "VACUUM is not allowed"@,
            DbError::QuotaExceeded => "Data Lab storage quota exceeded"@,
            DbError::TooManyDatabases => "Data Lab database limit reached (16 per server)"@,
            DbError::TooManyRows => "query returned too many rows (limit 10000)"@,
            DbError::CellTooLarge => "query cell exceeds 4 MiB limit"@,
            DbError::ResultTooLarge => "query result exceeds 32 MiB limit"@,
            DbError::ImportTooLarge => "import would exceed the Data Lab storage quota"@,
            DbError::RootNotDirectory => "datalab root is not a directory"@,
            DbError::ServerPathNotDirectory => "server datalab path is not a real directory"@,
        }
    }

    /// The message of a refusal.
    pub fn message(self) -> (r: &'static str)
        ensures
            r@ == self.text_of(),
    {
        match self {
            DbError::InvalidName => "invalid database name",
            DbError::StatementTooLong => "SQL statement exceeds 1 MiB limit",
            DbError::VacuumDenied => "VACUUM is not allowed",
            DbError::QuotaExceeded => "Data Lab storage quota exceeded",
            DbError::TooManyDatabases => "Data Lab database limit reached (16 per server)",
            DbError::TooManyRows => "query returned too many rows (limit 10000)",
            DbError::CellTooLarge => "query cell exceeds 4 MiB limit",
            DbError::ResultTooLarge => "query result exceeds 32 MiB limit",
            DbError::ImportTooLarge => "import would exceed the Data Lab storage quota",
            DbError::RootNotDirectory => "datalab root is not a directory",
            DbError::ServerPathNotDirectory => "server datalab path is not a real directory",
        }
    }
}

/// How many characters, from the front, come before `stop`.
pub open spec fn before(s: Seq<char>, stop: char) -> int
    decreases s.len(),
{
    if s.len() == 0 || s[0] == stop {
        0
    } else {
        1 + before(s.drop_first(), stop)
    }
}

/// Length of what closes a block comment, from behind its opening: through the
/// first `*/`, or all there is.
pub open spec fn comment_len(s: Seq<char>) -> int
    decreases s.len(),
{
    if s.len() < 2 {
        s.len() as int
    } else if s[0] == '*' && s[1] == '/' {
        2
    } else {
        1 + comment_len(s.drop_first())
    }
}

/// Length of a quoted text from behind its opening quote: through the first
/// quote that is not doubled, or all there is.
pub open spec fn quoted_len(s: Seq<char>, quote: char) -> int
    decreases s.len(),
{
    if s.len() == 0 {
        0
    } else if s[0] != quote {
        1 + quoted_len(s.drop_first(), quote)
    } else if s.len() > 1 && s[1] == quote {
        2 + quoted_len(s.skip(2), quote)
    } else {
        1
    }
}

/// Whether a character can start a bare word.
pub open spec fn starts_word(c: char) -> bool {
    text::is_letter(c) || c == '_'
}

/// Length of the bare word at the front.
pub open spec fn word_len(s: Seq<char>) -> int
    decreases s.len(),
{
    if s.len() > 0 && (text::is_alnum(s[0]) || s[0] == '_') {
        1 + word_len(s.drop_first())
    } else {
        0
    }
}

/// Length of the first token of SQL text: a comment, a quoted text or
/// identifier, a bare word, or a single character.
pub open spec fn token_len(s: Seq<char>) -> int {
    if s.len() > 1 && s[0] == '-' && s[1] == '-' {
        before(s, '\n')
    } else if s.len() > 1 && s[0] == '/' && s[1] == '*' {
        2 + comment_len(s.skip(2))
    } else if s[0] == '[' {
        if before(s, ']') < s.len() {
            before(s, ']') + 1
        } else {
            before(s, ']')
        }
    } else if s[0] == '\'' || s[0] == '"' || s[0] == '`' {
        1 + quoted_len(s.drop_first(), s[0])
    } else if starts_word(s[0]) {
        word_len(s)
    } else {
        1
    }
}

/// Lengths of token parts lie within the text.
proof fn lemma_before(s: Seq<char>, stop: char)
    ensures
        0 <= before(s, stop) <= s.len(),
    decreases s.len(),
{
    if s.len() > 0 {
        lemma_before(s.drop_first(), stop);
    }
}

proof fn lemma_comment_len(s: Seq<char>)
    ensures
        0 <= comment_len(s) <= s.len(),
    decreases s.len(),
{
    if s.len() > 0 {
        lemma_comment_len(s.drop_first());
    }
}

proof fn lemma_quoted_len(s: Seq<char>, quote: char)
    ensures
        0 <= quoted_len(s, quote) <= s.len(),
    decreases s.len(),
{
    if s.len() > 0 {
        lemma_quoted_len(s.drop_first(), quote);
        if s.len() > 1 {
            lemma_quoted_len(s.skip(2), quote);
        }
    }
}

proof fn lemma_word_len(s: Seq<char>)
    ensures
        0 <= word_len(s) <= s.len(),
    decreases s.len(),
{
    if s.len() > 0 {
        lemma_word_len(s.drop_first());
    }
}

/// A token takes one character at least and lies within the text.
pub proof fn lemma_token_len(s: Seq<char>)
    requires
        s.len() > 0,
    ensures
        1 <= token_len(s) <= s.len(),
{
    lemma_before(s, '\n');
    lemma_before(s, ']');
    lemma_before(s.drop_first(), '\n');
    lemma_before(s.drop_first(), ']');
    lemma_quoted_len(s.drop_first(), s[0]);
    lemma_word_len(s);
    lemma_word_len(s.drop_first());
    if s.len() > 1 {
        lemma_comment_len(s.skip(2));
    }
}

/// Whether SQL text holds `kw`, in any case, as a bare word outside comments and
/// quotes.
pub open spec fn has_keyword(s: Seq<char>, kw: Seq<char>) -> bool
    decreases s.len(),
{
    if s.len() == 0 {
        false
    } else {
        proof {
            lemma_token_len(s);
        }
        ||| starts_word(s[0]) && text::lowered(s.take(word_len(s))) == text::lowered(kw)
        ||| has_keyword(s.skip(token_len(s)), kw)
    }
}

/// Place of the first `stop` from `from` on, or the end.
fn seek(cs: &[char], from: usize, stop: char) -> (r: usize)
    requires
        from <= cs@.len(),
    ensures
        r == from + before(cs@.skip(from as int), stop),
        r <= cs@.len(),
{
    let mut i: usize = from;
    while i < cs.len() && cs[i] != stop
        invariant
            from <= i <= cs@.len(),
            i - from + before(cs@.skip(i as int), stop) == before(cs@.skip(from as int), stop),
        decreases cs.len() - i,
    {
        assert(cs@.skip(i as int).drop_first() =~= cs@.skip(i + 1));
        i += 1;
    }
    i
}

/// Place behind a block comment whose text starts at `from`.
fn skip_comment(cs: &[char], from: usize) -> (r: usize)
    requires
        from <= cs@.len(),
    ensures
        r == from + comment_len(cs@.skip(from as int)),
        r <= cs@.len(),
{
    let mut i: usize = from;
    while cs.len() - i >= 2
        invariant
            from <= i <= cs@.len(),
            i - from + comment_len(cs@.skip(i as int)) == comment_len(cs@.skip(from as int)),
        decreases cs.len() - i,
    {
        assert(cs@.skip(i as int).drop_first() =~= cs@.skip(i + 1));
        if cs[i] == '*' && cs[i + 1] == '/' {
            return i + 2;
        }
        i += 1;
    }
    cs.len()
}

/// Place behind a quoted text that starts at `from`.
fn skip_quoted(cs: &[char], from: usize, quote: char) -> (r: usize)
    requires
        from <= cs@.len(),
    ensures
        r == from + quoted_len(cs@.skip(from as int), quote),
        r <= cs@.len(),
{
    let mut i: usize = from;
    while i < cs.len()
        invariant
            from <= i <= cs@.len(),
            i - from + quoted_len(cs@.skip(i as int), quote) == quoted_len(
                cs@.skip(from as int),
                quote,
            ),
        decreases cs.len() - i,
    {
        assert(cs@.skip(i as int).drop_first() =~= cs@.skip(i + 1));
        if cs[i] == quote {
            if cs.len() - i > 1 && cs[i + 1] == quote {
                assert(cs@.skip(i as int).skip(2) =~= cs@.skip(i + 2));
                i += 2;
            } else {
                return i + 1;
            }
        } else {
            i += 1;
        }
    }
    i
}

/// Place behind the bare word that starts at `from`.
fn skip_word(cs: &[char], from: usize) -> (r: usize)
    requires
        from <= cs@.len(),
    ensures
        r == from + word_len(cs@.skip(from as int)),
        r <= cs@.len(),
{
    let mut i: usize = from;
    while i < cs.len() && (text::is_ascii_alnum(cs[i]) || cs[i] == '_')
        invariant
            from <= i <= cs@.len(),
            i - from + word_len(cs@.skip(i as int)) == word_len(cs@.skip(from as int)),
        decreases cs.len() - i,
    {
        assert(cs@.skip(i as int).drop_first() =~= cs@.skip(i + 1));
        i += 1;
    }
    i
}

/// Whether `sql` holds `kw` as a bare word outside strings, quoted identifiers
/// and comments.
pub fn contains_keyword(sql: &str, kw: &str) -> (r: bool)
    ensures
        r == has_keyword(sql@, kw@),
{
    let cs = text::chars_of(sql);
    let wanted = text::to_lower(text::chars_of(kw).as_slice());
    let mut i: usize = 0;
    assert(cs@.skip(0) =~= cs@);
    while i < cs.len()
        invariant
            i <= cs@.len(),
            cs@ == sql@,
            wanted@ == text::lowered(kw@),
            has_keyword(cs@.skip(i as int), kw@) == has_keyword(sql@, kw@),
        decreases cs.len() - i,
    {
        let ghost s = cs@.skip(i as int);
        proof {
            lemma_token_len(s);
            assert(s.drop_first() =~= cs@.skip(i + 1));
        }
        let c = cs[i];
        let pair = cs.len() - i > 1;
        if pair {
            assert(s.skip(2) =~= cs@.skip(i + 2));
        }
        let letter = ('a' <= c && c <= 'z') || ('A' <= c && c <= 'Z') || c == '_';
        let next: usize = if pair && c == '-' && cs[i + 1] == '-' {
            seek(cs.as_slice(), i, '\n')
        } else if pair && c == '/' && cs[i + 1] == '*' {
            skip_comment(cs.as_slice(), i + 2)
        } else if c == '[' {
            let close = seek(cs.as_slice(), i, ']');
            if close < cs.len() {
                close + 1
            } else {
                close
            }
        } else if c == '\'' || c == '"' || c == '`' {
            skip_quoted(cs.as_slice(), i + 1, c)
        } else if letter {
            skip_word(cs.as_slice(), i)
        } else {
            i + 1
        };
        assert(next == i + token_len(s));
        if letter {
            let word = text::to_lower(slice_subrange(cs.as_slice(), i, next));
            assert(cs@.subrange(i as int, next as int) =~= s.take(word_len(s)));
            if text::same_chars(word.as_slice(), wanted.as_slice()) {
                return true;
            }
        }
        assert(s.skip(token_len(s)) =~= cs@.skip(next as int));
        i = next;
    }
    assert(cs@.skip(i as int) =~= Seq::<char>::empty());
    false
}

/// A quarter of the disk limit in bytes, never below the floor. A disk limit
/// that is negative counts as the unsigned number of the same bits, and a
/// product past the range as its end.
pub open spec fn byte_cap(disk_mb: i64) -> int {
    let mib: int = if disk_mb < 0 {
        disk_mb + 0x1_0000_0000_0000_0000
    } else {
        disk_mb as int
    };
    let bytes: int = if mib * 1048576 > u64::MAX {
        u64::MAX as int
    } else {
        mib * 1048576
    };
    if bytes / 4 < DATALAB_BYTE_FLOOR {
        DATALAB_BYTE_FLOOR as int
    } else {
        bytes / 4
    }
}

/// The byte budget of a server's databases.
pub fn datalab_byte_cap(server: &Server) -> (r: u64)
    ensures
        r == byte_cap(server.disk_mb),
{
    let bytes: u64 = if server.disk_mb < 0 || server.disk_mb > 17592186044415 {
        u64::MAX
    } else {
        (server.disk_mb as u64) * 1048576
    };
    let quarter: u64 = bytes / 4;
    if quarter < DATALAB_BYTE_FLOOR {
        DATALAB_BYTE_FLOOR
    } else {
        quarter
    }
}

/// What stands at a path, links not followed.
#[derive(Debug, Clone, Copy, PartialEq, Eq, Structural)]
pub enum PathState {
    /// Nothing.
    Missing,
    /// A real directory.
    Directory,
    /// Something else, a link among others.
    Other,
    /// It could not be read.
    Unreadable,
}

/// Which path of a server's database directory is being looked at.
#[derive(Debug, Clone, Copy, PartialEq, Eq, Structural)]
pub enum DirStep {
    /// The common root.
    Root,
    /// The common root, just created.
    RootCreated,
    /// The server's own directory.
    Server,
    /// The server's own directory, just created.
    ServerCreated,
}

/// What to do next about a server's database directory.
#[derive(Debug, Clone, Copy, PartialEq, Eq, Structural)]
pub enum DirAction {
    /// Create the path with its parents and look again.
    Create,
    /// Go on to the server's own directory.
    CheckServer,
    /// The directory can be used.
    Use,
    /// The directory can be used once it is closed to everyone else.
    MakePrivate,
    /// There is no directory yet.
    Absent,
    /// Pass the error on.
    Fail,
    /// Refuse.
    Refuse(DbError),
}

/// The next action towards a server's database directory: what is missing is
/// created once, anything but a real directory is refused.
pub open spec fn dir_action(step: DirStep, seen: PathState) -> DirAction {
    match (step, seen) {
        (_, PathState::Unreadable) => DirAction::Fail,
        (DirStep::Root, PathState::Directory) => DirAction::CheckServer,
        (DirStep::RootCreated, PathState::Directory) => DirAction::CheckServer,
        (DirStep::Server, PathState::Directory) => DirAction::Use,
        (DirStep::ServerCreated, PathState::Directory) => DirAction::MakePrivate,
        (DirStep::Root, PathState::Missing) => DirAction::Create,
        (DirStep::Server, PathState::Missing) => DirAction::Create,
        (DirStep::RootCreated, PathState::Missing) => DirAction::Fail,
        (DirStep::ServerCreated, PathState::Missing) => DirAction::Fail,
        (DirStep::Root, PathState::Other) => DirAction::Refuse(DbError::RootNotDirectory),
        (DirStep::RootCreated, PathState::Other) => DirAction::Refuse(DbError::RootNotDirectory),
        (DirStep::Server, PathState::Other) => DirAction::Refuse(DbError::ServerPathNotDirectory),
        (DirStep::ServerCreated, PathState::Other) => DirAction::Refuse(
            DbError::ServerPathNotDirectory,
        ),
    }
}

/// The next action towards a server's database directory, created where missing.
pub fn checked_db_dir(step: DirStep, seen: PathState) -> (r: DirAction)
    ensures
        r == dir_action(step, seen),
{
    match seen {
        PathState::Unreadable => DirAction::Fail,
        PathState::Directory => match step {
            DirStep::Root | DirStep::RootCreated => DirAction::CheckServer,
            DirStep::Server => DirAction::Use,
            DirStep::ServerCreated => DirAction::MakePrivate,
        },
        PathState::Missing => match step {
            DirStep::Root | DirStep::Server => DirAction::Create,
            DirStep::RootCreated | DirStep::ServerCreated => DirAction::Fail,
        },
        PathState::Other => match step {
            DirStep::Root | DirStep::RootCreated => DirAction::Refuse(DbError::RootNotDirectory),
            DirStep::Server | DirStep::ServerCreated => DirAction::Refuse(
                DbError::ServerPathNotDirectory,
            ),
        },
    }
}

/// The next action towards a server's database directory, never created: a path
/// that is missing means there is none yet.
pub fn existing_db_dir(step: DirStep, seen: PathState) -> (r: DirAction)
    ensures
        r == if seen == PathState::Missing {
            DirAction::Absent
        } else {
            dir_action(step, seen)
        },
{
    match seen {
        PathState::Missing => DirAction::Absent,
        _ => checked_db_dir(step, seen),
    }
}

/// Directory of a server's databases, below the panel's own root.
pub fn db_dir(server: &Server, datalab_root: &str) -> (r: String)
    ensures
        r@ == paths::joined(datalab_root@, server.uuid@),
{
    paths::join(datalab_root, server.uuid.as_str())
}

/// Whether a name is 1 to 64 letters, digits, dots, underscores and dashes of
/// ASCII, with no dot in front and no two dots together.
pub open spec fn valid_name(name: Seq<char>) -> bool {
    &&& 1 <= name.len() <= 64
    &&& name[0] != '.'
    &&& forall|i: int|
        0 <= i < name.len() ==> (text::is_alnum(#[trigger] name[i]) || name[i] == '.' || name[i]
            == '_' || name[i] == '-')
    &&& forall|i: int| 0 <= i < name.len() - 1 ==> !(#[trigger] name[i] == '.' && name[i + 1] == '.')
}

/// Accepts a database name.
pub fn validate_name(name: &str) -> (r: Result<(), DbError>)
    ensures
        r is Ok <==> valid_name(name@),
        r is Err ==> r->Err_0 == DbError::InvalidName,
{
    let cs = text::chars_of(name);
    if cs.len() == 0 || cs.len() > 64 || cs[0] == '.' {
        return Err(DbError::InvalidName);
    }
    let mut i: usize = 0;
    while i < cs.len()
        invariant
            i <= cs@.len(),
            cs@ == name@,
            1 <= cs@.len() <= 64,
            cs@[0] != '.',
            forall|j: int|
                0 <= j < i ==> (text::is_alnum(#[trigger] cs@[j]) || cs@[j] == '.' || cs@[j] == '_'
                    || cs@[j] == '-'),
            forall|j: int| 0 <= j < i - 1 ==> !(#[trigger] cs@[j] == '.' && cs@[j + 1] == '.'),
        decreases cs.len() - i,
    {
        let c = cs[i];
        if !(text::is_ascii_alnum(c) || c == '.' || c == '_' || c == '-') {
            assert(!valid_name(name@)) by {
                assert(name@[i as int] == c);
            }
            return Err(DbError::InvalidName);
        }
        if i > 0 && c == '.' && cs[i - 1] == '.' {
            assert(!valid_name(name@)) by {
                assert(name@[i - 1] == '.');
            }
            return Err(DbError::InvalidName);
        }
        i += 1;
    }
    Ok(())
}

/// File of a database.
pub open spec fn db_file(server: Server, datalab_root: Seq<char>, name: Seq<char>) -> Seq<char> {
    paths::joined(paths::joined(datalab_root, server.uuid@), name + ".db"@)
}

/// File of a database.
fn file_of(server: &Server, datalab_root: &str, name: &str) -> (r: String)
    ensures
        r@ == db_file(*server, datalab_root@, name@),
{
    let mut file = text::copy_of(name);
    file.append(".db");
    paths::join(db_dir(server, datalab_root).as_str(), file.as_str())
}

/// A file of a database that is to be opened: no link on the way is followed, and
/// a missing file is made only where `create` says so.
#[derive(Debug, Clone)]
pub struct OpenPlan {
    pub file: String,
    pub create: bool,
}

/// What stands at the file of a database, links not followed.
#[derive(Debug, Clone, Copy, PartialEq, Eq, Structural)]
pub enum FileState {
    Missing,
    Regular,
    /// Something else, a link among others.
    Other,
}

/// Whether a planned file is opened, given what stands there.
pub open spec fn opens(p: OpenPlan, seen: FileState) -> bool {
    seen == FileState::Regular || makes(p, seen)
}

/// Whether a planned file is made, given what stands there.
pub open spec fn makes(p: OpenPlan, seen: FileState) -> bool {
    seen == FileState::Missing && p.create
}

/// Opens or creates a database where the server has `count` databases that take
/// `total` bytes: gives the file to open.
pub fn open_server_db(
    server: &Server,
    datalab_root: &str,
    name: &str,
    count: usize,
    total: u64,
) -> (r: Result<OpenPlan, DbError>)
    ensures
        match r {
            Ok(p) => valid_name(name@) && count < MAX_DATABASES_PER_SERVER && total < byte_cap(
                server.disk_mb,
            ) && p.file@ == db_file(*server, datalab_root@, name@) && p.create,
            Err(e) => if !valid_name(name@) {
                e == DbError::InvalidName
            } else if count >= MAX_DATABASES_PER_SERVER {
                e == DbError::TooManyDatabases
            } else {
                e == DbError::QuotaExceeded && total >= byte_cap(server.disk_mb)
            },
        },
{
    match validate_name(name) {
        Err(e) => {
            return Err(e);
        },
        Ok(_) => {},
    }
    if count >= MAX_DATABASES_PER_SERVER {
        return Err(DbError::TooManyDatabases);
    }
    if total >= datalab_byte_cap(server) {
        return Err(DbError::QuotaExceeded);
    }
    Ok(OpenPlan { file: file_of(server, datalab_root, name), create: true })
}

/// Opens a database that is there already: gives the file to open without
/// creating it.
pub fn open_server_db_no_create(server: &Server, datalab_root: &str, name: &str) -> (r: Result<
    OpenPlan,
    DbError,
>)
    ensures
        match r {
            Ok(p) => valid_name(name@) && p.file@ == db_file(*server, datalab_root@, name@)
                && !p.create,
            Err(e) => !valid_name(name@) && e == DbError::InvalidName,
        },
{
    match validate_name(name) {
        Err(e) => Err(e),
        Ok(_) => Ok(OpenPlan { file: file_of(server, datalab_root, name), create: false }),
    }
}

/// What the checks of a statement's text say: nothing where it may run.
pub open spec fn statement_error(sql: Seq<char>) -> Option<DbError> {
    if text::byte_len(sql) > MAX_STMT_BYTES {
        Some(DbError::StatementTooLong)
    } else if has_keyword(sql, "VACUUM"@) {
        Some(DbError::VacuumDenied)
    } else {
        None
    }
}

/// Checks a statement's text.
pub fn check_statement(sql: &str) -> (r: Result<(), DbError>)
    ensures
        match r {
            Ok(_) => statement_error(sql@) is None,
            Err(e) => statement_error(sql@) == Some(e),
        },
{
    if text::byte_length(sql) > MAX_STMT_BYTES {
        return Err(DbError::StatementTooLong);
    }
    if contains_keyword(sql, "VACUUM") {
        return Err(DbError::VacuumDenied);
    }
    Ok(())
}

/// What the checks before a write say, with `total` bytes in use: nothing where
/// it may run.
pub open spec fn exec_error(
    server: Server,
    name: Seq<char>,
    sql: Seq<char>,
    total: u64,
) -> Option<DbError> {
    if statement_error(sql) is Some {
        statement_error(sql)
    } else if total > byte_cap(server.disk_mb) {
        Some(DbError::QuotaExceeded)
    } else if !valid_name(name) {
        Some(DbError::InvalidName)
    } else {
        None
    }
}

/// Whether an answer is the one to a batch of statements on a database.
pub open spec fn is_exec_answer(
    server: Server,
    datalab_root: Seq<char>,
    name: Seq<char>,
    sql: Seq<char>,
    total: u64,
    r: Result<OpenPlan, DbError>,
) -> bool {
    match r {
        Ok(p) => exec_error(server, name, sql, total) is None && p.file@ == db_file(
            server,
            datalab_root,
            name,
        ) && !p.create,
        Err(e) => exec_error(server, name, sql, total) == Some(e),
    }
}

/// Admits a batch of statements on a database: gives the file to open, which must
/// be there already.
pub fn exec(server: &Server, datalab_root: &str, name: &str, sql: &str, total: u64) -> (r: Result<
    OpenPlan,
    DbError,
>)
    ensures
        is_exec_answer(*server, datalab_root@, name@, sql@, total, r),
{
    match check_statement(sql) {
        Err(e) => {
            return Err(e);
        },
        Ok(_) => {},
    }
    if total > datalab_byte_cap(server) {
        return Err(DbError::QuotaExceeded);
    }
    open_server_db_no_create(server, datalab_root, name)
}

/// Admits a read query on a database: gives the file to open, which must be there
/// already.
pub fn query(server: &Server, datalab_root: &str, name: &str, sql: &str) -> (r: Result<
    OpenPlan,
    DbError,
>)
    ensures
        match r {
            Ok(p) => statement_error(sql@) is None && valid_name(name@) && p.file@ == db_file(
                *server,
                datalab_root@,
                name@,
            ) && !p.create,
            Err(e) => if statement_error(sql@) is Some {
                statement_error(sql@) == Some(e)
            } else {
                e == DbError::InvalidName && !valid_name(name@)
            },
        },
{
    match check_statement(sql) {
        Err(e) => {
            return Err(e);
        },
        Ok(_) => {},
    }
    open_server_db_no_create(server, datalab_root, name)
}

/// Rows and bytes that a running query has handed back.
#[derive(Debug, Clone, Copy)]
pub struct QueryBudget {
    pub rows: usize,
    pub bytes: usize,
}

impl QueryBudget {
    /// Within the limits of a query.
    pub open spec fn within(self) -> bool {
        self.rows <= MAX_QUERY_ROWS && self.bytes <= MAX_QUERY_BYTES
    }

    /// The budget of a query that has handed back nothing.
    pub fn new() -> (r: QueryBudget)
        ensures
            r.rows == 0,
            r.bytes == 0,
            r.within(),
    {
        QueryBudget { rows: 0, bytes: 0 }
    }

    /// Before a row is read: whether one more row may be handed back.
    pub fn next_row(&self) -> (r: Result<(), DbError>)
        ensures
            r is Ok <==> self.rows < MAX_QUERY_ROWS,
            r is Err ==> r->Err_0 == DbError::TooManyRows,
    {
        if self.rows >= MAX_QUERY_ROWS {
            return Err(DbError::TooManyRows);
        }
        Ok(())
    }

    /// Admits a blob cell: gives its bytes as base64 text.
    pub fn blob(b: &[u8]) -> (r: Result<String, DbError>)
        ensures
            match r {
                Ok(s) => b@.len() <= MAX_CELL_BYTES && s@ == encoding::base64_text(b@),
                Err(e) => b@.len() > MAX_CELL_BYTES && e == DbError::CellTooLarge,
            },
    {
        match Self::cell(b.len()) {
            Err(e) => Err(e),
            Ok(_) => Ok(encoding::base64_encode(b)),
        }
    }

    /// Admits a text or blob cell of `len` bytes.
    pub fn cell(len: usize) -> (r: Result<(), DbError>)
        ensures
            r is Ok <==> len <= MAX_CELL_BYTES,
            r is Err ==> r->Err_0 == DbError::CellTooLarge,
    {
        if len > MAX_CELL_BYTES {
            return Err(DbError::CellTooLarge);
        }
        Ok(())
    }

    /// Adds a row of `row_bytes` serialized bytes where the result stays within
    /// its limit.
    pub fn add_row(&mut self, row_bytes: usize) -> (r: Result<(), DbError>)
        requires
            old(self).within(),
            old(self).rows < MAX_QUERY_ROWS,
        ensures
            match r {
                Ok(_) => final(self).rows == old(self).rows + 1 && final(self).bytes == old(
                    self,
                ).bytes + row_bytes && final(self).within(),
                Err(e) => e == DbError::ResultTooLarge && old(self).bytes + row_bytes
                    > MAX_QUERY_BYTES && *final(self) == *old(self),
            },
    {
        let bytes: usize = self.bytes.saturating_add(row_bytes);
        if bytes > MAX_QUERY_BYTES {
            return Err(DbError::ResultTooLarge);
        }
        self.bytes = bytes;
        self.rows = self.rows + 1;
        Ok(())
    }
}

/// `s` without the `.db` that it ends with.
pub open spec fn stem(s: Seq<char>) -> Seq<char> {
    if text::finishes_with(s, ".db"@) {
        s.take(s.len() - 3)
    } else {
        s
    }
}

/// Removes the `.db` that a name ends with.
fn strip_db(name: &str) -> (r: String)
    ensures
        r@ == stem(name@),
{
    proof {
        reveal_strlit(".db");
    }
    let cs = text::chars_of(name);
    let ending = text::chars_of(".db");
    if !text::ends_with(cs.as_slice(), ending.as_slice()) {
        return text::copy_of(name);
    }
    let n: usize = cs.len() - 3;
    assert(cs@.subrange(0, n as int) =~= cs@.take(n as int));
    text::string_of(slice_subrange(cs.as_slice(), 0, n))
}

/// A directory entry: its name, and whether it is a regular file.
#[derive(Debug, Clone)]
pub struct DirEntry {
    pub name: String,
    pub regular: bool,
}

/// Whether a directory entry is a database: a regular file that ends in `.db`.
pub open spec fn is_database(e: DirEntry) -> bool {
    e.regular && text::finishes_with(e.name@, ".db"@)
}

/// The names of the databases among some directory entries.
pub open spec fn database_names(entries: Seq<DirEntry>) -> Seq<Seq<char>>
    decreases entries.len(),
{
    if entries.len() == 0 {
        Seq::empty()
    } else {
        let names = database_names(entries.drop_last());
        if is_database(entries.last()) {
            names.push(stem(entries.last().name@))
        } else {
            names
        }
    }
}

/// Lists the databases among the entries of a server's directory.
pub fn list(entries: &Vec<DirEntry>) -> (r: Vec<String>)
    ensures
        text::views(r@) == database_names(entries@),
{
    let mut out: Vec<String> = Vec::new();
    let mut i: usize = 0;
    assert(text::views(out@) =~= database_names(entries@.take(0)));
    while i < entries.len()
        invariant
            i <= entries@.len(),
            text::views(out@) == database_names(entries@.take(i as int)),
        decreases entries.len() - i,
    {
        let name = text::chars_of(entries[i].name.as_str());
        let ending = text::chars_of(".db");
        assert(entries@.take(i + 1).drop_last() =~= entries@.take(i as int));
        if entries[i].regular && text::ends_with(name.as_slice(), ending.as_slice()) {
            let ghost before = text::views(out@);
            out.push(strip_db(entries[i].name.as_str()));
            assert(text::views(out@) =~= before.push(stem(entries@[i as int].name@)));
        }
        i += 1;
    }
    assert(entries@.take(i as int) =~= entries@);
    out
}

/// A sum that stops at the end of its range.
pub open spec fn capped_sum(a: int, b: int) -> int {
    if a + b > u64::MAX {
        u64::MAX as int
    } else {
        a + b
    }
}

/// Bytes of a database: its file and its two sidecars, as far as they are
/// regular files.
pub open spec fn size_of(main: Option<u64>, wal: Option<u64>, shm: Option<u64>) -> int {
    let a: int = if main is Some {
        main->0 as int
    } else {
        0
    };
    let b: int = if wal is Some {
        wal->0 as int
    } else {
        0
    };
    let c: int = if shm is Some {
        shm->0 as int
    } else {
        0
    };
    capped_sum(capped_sum(a, b), c)
}

/// Bytes of a database with its sidecars.
pub fn size(main: Option<u64>, wal: Option<u64>, shm: Option<u64>) -> (r: u64)
    ensures
        r == size_of(main, wal, shm),
{
    let a: u64 = main.unwrap_or(0);
    let b: u64 = wal.unwrap_or(0);
    let c: u64 = shm.unwrap_or(0);
    a.saturating_add(b).saturating_add(c)
}

/// A database and the bytes it takes.
#[derive(Debug, Clone)]
pub struct DbSize {
    pub name: String,
    pub bytes: u64,
}

/// Bytes of some databases, without those named `skip`.
pub open spec fn sum_of(dbs: Seq<DbSize>, skip: Option<Seq<char>>) -> int
    decreases dbs.len(),
{
    if dbs.len() == 0 {
        0
    } else {
        let before = sum_of(dbs.drop_last(), skip);
        if Some(dbs.last().name@) == skip {
            before
        } else {
            capped_sum(before, dbs.last().bytes as int)
        }
    }
}

/// Bytes of all databases of a server.
pub fn total_size(dbs: &Vec<DbSize>) -> (r: u64)
    ensures
        r == sum_of(dbs@, None),
{
    let mut total: u64 = 0;
    let mut i: usize = 0;
    while i < dbs.len()
        invariant
            i <= dbs@.len(),
            total == sum_of(dbs@.take(i as int), None),
        decreases dbs.len() - i,
    {
        assert(dbs@.take(i + 1).drop_last() =~= dbs@.take(i as int));
        total = total.saturating_add(dbs[i].bytes);
        i += 1;
    }
    assert(dbs@.take(i as int) =~= dbs@);
    total
}

/// Bytes of some databases, counted without end.
pub open spec fn bytes_of(dbs: Seq<DbSize>) -> int
    decreases dbs.len(),
{
    if dbs.len() == 0 {
        0
    } else {
        bytes_of(dbs.drop_last()) + dbs.last().bytes
    }
}

/// Every byte of every database counts, as far as numbers go.
pub proof fn law_total_counts_every_byte(dbs: Seq<DbSize>)
    ensures
        sum_of(dbs, None) == capped_sum(bytes_of(dbs), 0),
    decreases dbs.len(),
{
    if dbs.len() > 0 {
        law_total_counts_every_byte(dbs.drop_last());
    }
}

/// Bytes of all databases of a server but one.
pub fn total_size_excluding(dbs: &Vec<DbSize>, name: &str) -> (r: u64)
    ensures
        r == sum_of(dbs@, Some(name@)),
{
    let mut total: u64 = 0;
    let mut i: usize = 0;
    while i < dbs.len()
        invariant
            i <= dbs@.len(),
            total == sum_of(dbs@.take(i as int), Some(name@)),
        decreases dbs.len() - i,
    {
        assert(dbs@.take(i + 1).drop_last() =~= dbs@.take(i as int));
        if !text::same(dbs[i].name.as_str(), name) {
            total = total.saturating_add(dbs[i].bytes);
        }
        i += 1;
    }
    assert(dbs@.take(i as int) =~= dbs@);
    total
}

/// Admits the replacement of database `name` by `len` bytes: it has to fit beside
/// the server's other databases.
pub fn import(server: &Server, name: &str, dbs: &Vec<DbSize>, len: u64) -> (r: Result<(), DbError>)
    ensures
        match r {
            Ok(_) => valid_name(name@) && capped_sum(sum_of(dbs@, Some(name@)), len as int)
                <= byte_cap(server.disk_mb),
            Err(e) => if !valid_name(name@) {
                e == DbError::InvalidName
            } else {
                e == DbError::ImportTooLarge && capped_sum(
                    sum_of(dbs@, Some(name@)),
                    len as int,
                ) > byte_cap(server.disk_mb)
            },
        },
{
    match validate_name(name) {
        Err(e) => {
            return Err(e);
        },
        Ok(_) => {},
    }
    if total_size_excluding(dbs, name).saturating_add(len) > datalab_byte_cap(server) {
        return Err(DbError::ImportTooLarge);
    }
    Ok(())
}

/// A batch of statements that is refused opens no database, and neither does one
/// for a database that is missing or a link. None ever makes a database, so one
/// that was dropped stays gone.
pub proof fn law_statement_makes_no_database(
    server: Server,
    datalab_root: Seq<char>,
    name: Seq<char>,
    sql: Seq<char>,
    total: u64,
    seen: FileState,
    r: Result<OpenPlan, DbError>,
)
    requires
        is_exec_answer(server, datalab_root, name, sql, total, r),
    ensures
        !valid_name(name) || text::byte_len(sql) > MAX_STMT_BYTES || has_keyword(sql, "VACUUM"@)
            || total > byte_cap(server.disk_mb) ==> r is Err,
        r matches Ok(p) ==> !makes(p, seen) && (opens(p, seen) ==> seen == FileState::Regular),
{
}

/// A database is listed under its own name, whatever that ends with, and so are
/// its bytes counted.
pub proof fn law_database_is_listed_by_name(entries: Seq<DirEntry>, i: int, name: Seq<char>)
    requires
        0 <= i < entries.len(),
        entries[i].regular,
        entries[i].name@ == name + ".db"@,
    ensures
        database_names(entries).contains(name),
    decreases entries.len(),
{
    reveal_strlit(".db");
    let before = database_names(entries.drop_last());
    if i == entries.len() - 1 {
        let file = name + ".db"@;
        assert(file.skip(file.len() - 3) =~= ".db"@);
        assert(file.subrange(file.len() - 3, file.len() as int) =~= ".db"@);
        assert(text::finishes_with(file, ".db"@));
        assert(stem(file) =~= name);
        assert(database_names(entries).last() == name);
        assert(database_names(entries)[database_names(entries).len() - 1] == name);
    } else {
        assert(entries.drop_last()[i] == entries[i]);
        law_database_is_listed_by_name(entries.drop_last(), i, name);
        let k = choose|k: int| 0 <= k < before.len() && before[k] == name;
        assert(database_names(entries)[k] == name);
    }
}

/// Whether an integrity report says that a database is intact.
pub fn integrity_ok(report: &str) -> (r: bool)
    ensures
        r == (text::trimmed(report@) == "ok"@),
{
    text::same(text::trim_string(report).as_str(), "ok")
}

/// Whether a file of a legacy directory belongs to a database.
pub open spec fn is_database_file(name: Seq<char>) -> bool {
    text::finishes_with(name, ".db"@) || text::finishes_with(name, ".db-wal"@)
        || text::finishes_with(name, ".db-shm"@)
}

/// Whether a file of a legacy directory is moved to the panel's own root: a
/// regular file of a database.
pub fn migrates(name: &str, regular: bool) -> (r: bool)
    ensures
        r == (regular && is_database_file(name@)),
{
    let cs = text::chars_of(name);
    let a = text::chars_of(".db");
    let b = text::chars_of(".db-wal");
    let c = text::chars_of(".db-shm");
    regular && (text::ends_with(cs.as_slice(), a.as_slice()) || text::ends_with(
        cs.as_slice(),
        b.as_slice(),
    ) || text::ends_with(cs.as_slice(), c.as_slice()))
}

/// What a statement is about to do, as the database engine announces it.
#[derive(Debug, Clone)]
pub enum SqlAction {
    Attach,
    Detach,
    Function { name: String },
    CreateVtable,
    DropVtable,
    Reindex,
    Analyze,
    Pragma { name: String, has_value: bool },
    Insert,
    Update,
    Delete,
    CreateTable,
    DropTable,
    AlterTable,
    CreateIndex,
    DropIndex,
    CreateView,
    DropView,
    CreateTrigger,
    DropTrigger,
    CreateTempTable,
    DropTempTable,
    CreateTempIndex,
    DropTempIndex,
    CreateTempView,
    DropTempView,
    CreateTempTrigger,
    DropTempTrigger,
    Other,
}

/// Whether two texts are equal but for the case of ASCII letters.
pub open spec fn same_word(a: Seq<char>, b: Seq<char>) -> bool {
    text::lowered(a) == text::lowered(b)
}

/// Functions that reach files or load code.
pub open spec fn is_file_function(name: Seq<char>) -> bool {
    same_word(name, "load_extension"@) || same_word(name, "readfile"@) || same_word(
        name,
        "writefile"@,
    ) || same_word(name, "edit"@)
}

/// Settings that point into the file system or open the schema.
pub open spec fn is_file_pragma(name: Seq<char>) -> bool {
    text::lowered(name) == "writable_schema"@ || text::lowered(name) == "temp_store_directory"@
        || text::lowered(name) == "data_store_directory"@
}

/// Whether an action changes data or schema.
pub open spec fn is_mutation(a: SqlAction) -> bool {
    match a {
        SqlAction::Insert => true,
        SqlAction::Update => true,
        SqlAction::Delete => true,
        SqlAction::CreateTable => true,
        SqlAction::DropTable => true,
        SqlAction::AlterTable => true,
        SqlAction::CreateIndex => true,
        SqlAction::DropIndex => true,
        SqlAction::CreateView => true,
        SqlAction::DropView => true,
        SqlAction::CreateTrigger => true,
        SqlAction::DropTrigger => true,
        SqlAction::CreateTempTable => true,
        SqlAction::DropTempTable => true,
        SqlAction::CreateTempIndex => true,
        SqlAction::DropTempIndex => true,
        SqlAction::CreateTempView => true,
        SqlAction::DropTempView => true,
        SqlAction::CreateTempTrigger => true,
        SqlAction::DropTempTrigger => true,
        _ => false,
    }
}

/// Whether an action is denied: always where it can leave the server's own
/// database, and every mutation on a read-only connection.
pub open spec fn is_denied(a: SqlAction, read_only: bool) -> bool {
    match a {
        SqlAction::Attach => true,
        SqlAction::Detach => true,
        SqlAction::Function { name } => is_file_function(name@),
        SqlAction::CreateVtable => true,
        SqlAction::DropVtable => true,
        SqlAction::Reindex => true,
        SqlAction::Analyze => true,
        SqlAction::Pragma { name, has_value } => has_value || is_file_pragma(name@),
        _ => read_only && is_mutation(a),
    }
}

/// Whether two texts are equal but for the case of ASCII letters.
fn same_ignoring_case(a: &str, b: &str) -> (r: bool)
    ensures
        r == same_word(a@, b@),
{
    let la = text::to_lower(text::chars_of(a).as_slice());
    let lb = text::to_lower(text::chars_of(b).as_slice());
    text::same_chars(la.as_slice(), lb.as_slice())
}

/// Decides on an action of a statement.
pub fn denies(action: &SqlAction, read_only: bool) -> (r: bool)
    ensures
        r == is_denied(*action, read_only),
{
    match action {
        SqlAction::Attach | SqlAction::Detach => true,
        SqlAction::Function { name } => {
            let n = name.as_str();
            same_ignoring_case(n, "load_extension") || same_ignoring_case(n, "readfile")
                || same_ignoring_case(n, "writefile") || same_ignoring_case(n, "edit")
        },
        SqlAction::CreateVtable | SqlAction::DropVtable => true,
        SqlAction::Reindex | SqlAction::Analyze => true,
        SqlAction::Pragma { name, has_value } => {
            let low = text::to_lower(text::chars_of(name.as_str()).as_slice());
            let s = text::string_of(low.as_slice());
            *has_value || text::same(s.as_str(), "writable_schema") || text::same(
                s.as_str(),
                "temp_store_directory",
            ) || text::same(s.as_str(), "data_store_directory")
        },
        SqlAction::Other => false,
        _ => read_only,
    }
}

/// A connection that only reads is denied whatever any connection is denied,
/// and every mutation on top.
pub proof fn law_read_only_is_stricter(a: SqlAction)
    ensures
        is_denied(a, false) ==> is_denied(a, true),
        is_mutation(a) ==> is_denied(a, true),
{
}

/// A database with a valid name lies directly in its server's directory.
pub proof fn law_valid_name_stays_in_directory(
    server: Server,
    datalab_root: Seq<char>,
    name: Seq<char>,
)
    requires
        valid_name(name),
    ensures
        !text::mentions(name + ".db"@, '/'),
        name + ".db"@ != paths::up(),
        ({
            let dir = paths::joined(datalab_root, server.uuid@);
            db_file(server, datalab_root, name) == if dir.len() == 0 || dir.last() == '/' {
                dir + (name + ".db"@)
            } else {
                dir + seq!['/'] + (name + ".db"@)
            }
        }),
{
    reveal_strlit(".db");
    let file = name + ".db"@;
    assert forall|i: int| 0 <= i < file.len() implies file[i] != '/' by {
        if i < name.len() {
            assert(file[i] == name[i]);
        }
    }
    assert(file[0] == name[0]);
}

/// What an import admits leaves the server within its byte budget.
pub proof fn law_import_keeps_budget(others: int, len: int, disk_mb: i64)
    requires
        0 <= others <= u64::MAX,
        0 <= len <= u64::MAX,
        capped_sum(others, len) <= byte_cap(disk_mb),
    ensures
        others + len <= byte_cap(disk_mb),
{
}

/// A word in quotes is never taken for a keyword.
pub proof fn law_quoted_text_is_no_keyword(inner: Seq<char>, quote: char, kw: Seq<char>)
    requires
        quote == '\'' || quote == '"' || quote == '`',
        !text::mentions(inner, quote),
    ensures
        !has_keyword(seq![quote] + inner + seq![quote], kw),
{
    let s = seq![quote] + inner + seq![quote];
    lemma_quoted_run(inner, quote);
    assert(s.drop_first() =~= inner + seq![quote]);
    assert(token_len(s) == s.len());
    assert(!starts_word(s[0]));
    assert(!has_keyword(Seq::<char>::empty(), kw));
    assert(s.skip(token_len(s)) =~= Seq::<char>::empty());
}

proof fn lemma_quoted_run(inner: Seq<char>, quote: char)
    requires
        !text::mentions(inner, quote),
    ensures
        quoted_len(inner + seq![quote], quote) == inner.len() + 1,
    decreases inner.len(),
{
    let s = inner + seq![quote];
    if inner.len() > 0 {
        assert(inner[0] != quote);
        assert(!text::mentions(inner.drop_first(), quote)) by {
            assert forall|i: int| 0 <= i < inner.drop_first().len() implies inner.drop_first()[i]
                != quote by {
                assert(inner[i + 1] == inner.drop_first()[i]);
            }
        }
        lemma_quoted_run(inner.drop_first(), quote);
        assert(s.drop_first() =~= inner.drop_first() + seq![quote]);
    }
}

/// A keyword by itself is found, whatever the case of its letters.
pub proof fn law_bare_keyword_is_found(word: Seq<char>, kw: Seq<char>)
    requires
        word.len() > 0,
        starts_word(word[0]),
        forall|i: int| 0 <= i < word.len() ==> text::is_alnum(#[trigger] word[i]) || word[i] == '_',
        text::lowered(word) == text::lowered(kw),
    ensures
        has_keyword(word, kw),
{
    lemma_word_run(word);
    assert(word.take(word_len(word)) =~= word);
}

proof fn lemma_word_run(word: Seq<char>)
    requires
        forall|i: int| 0 <= i < word.len() ==> text::is_alnum(#[trigger] word[i]) || word[i] == '_',
    ensures
        word_len(word) == word.len(),
    decreases word.len(),
{
    if word.len() > 0 {
        lemma_word_run(word.drop_first());
    }
}

} // verus!
