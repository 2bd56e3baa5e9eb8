use vstd::prelude::*;

verus! {

/// The parsed command line: one subcommand.
pub struct Cli {
    pub command: Commands,
}

/// The subcommands of the front end.
pub enum Commands {
    /// Git init
    Init,
    /// Read a blob object
    CatFile(ReadBlobOptions),
    /// Create a blob object
    HashObject(CreateBlobOptions),
    /// Read a tree object
    LsTree(ReadTreeOptions),
    /// Write a tree object
    WriteTree,
    /// Create a commit
    CommitTree(CommitTreeOptions),
    /// Clone a repository
    Clone(CloneRepOptions),
}

/// Options of `cat-file`: the object given with `-p`.
pub struct ReadBlobOptions {
    pub print: Option<String>,
}

impl ReadBlobOptions {
    /// The object name given with `-p`, or `ReadBlobCommandError` when it is missing.
    pub fn read(&self) -> (r: Result<&str, ArgsReadError>)
        ensures
            match self.print {
                Some(s) => r matches Ok(v) && v@ == s@,
                None => r == Err::<&str, ArgsReadError>(ArgsReadError::ReadBlobCommandError),
            },
    {
        match &self.print {
            Some(file) => Ok(file.as_str()),
            None => Err(ArgsReadError::ReadBlobCommandError),
        }
    }
}

/// Options of `hash-object`: the file given with `-w`.
pub struct CreateBlobOptions {
    pub file: Option<String>,
}

impl CreateBlobOptions {
    /// The file given with `-w`, or `CreateBlobCommandError` when it is missing.
    pub fn read(&self) -> (r: Result<&str, ArgsReadError>)
        ensures
            match self.file {
                Some(s) => r matches Ok(v) && v@ == s@,
                None => r == Err::<&str, ArgsReadError>(ArgsReadError::CreateBlobCommandError),
            },
    {
        match &self.file {
            Some(file) => Ok(file.as_str()),
            None => Err(ArgsReadError::CreateBlobCommandError),
        }
    }
}

/// Options of `ls-tree`: the tree given with `--name-only`.
pub struct ReadTreeOptions {
    pub hash: Option<String>,
}

impl ReadTreeOptions {
    /// The tree given with `--name-only`, or `ReadTreeCommandError` when it is missing.
    pub fn read(&self) -> (r: Result<&str, ArgsReadError>)
        ensures
            match self.hash {
                Some(s) => r matches Ok(v) && v@ == s@,
                None => r == Err::<&str, ArgsReadError>(ArgsReadError::ReadTreeCommandError),
            },
    {
        match &self.hash {
            Some(hash) => Ok(hash.as_str()),
            None => Err(ArgsReadError::ReadTreeCommandError),
        }
    }
}

/// Options of `commit-tree`: the tree, the parent given with `-p` and the
/// message given with `-m`.
pub struct CommitTreeOptions {
    pub hash: Option<String>,
    pub print: Option<String>,
    pub message: Option<String>,
}

impl CommitTreeOptions {
    /// The three arguments; the first one missing, in the order tree, parent,
    /// message, names the error.
    pub fn read(&self) -> (r: Result<(&str, &str, &str), ArgsReadError>)
        ensures
            match (self.hash, self.print, self.message) {
                (Some(h), Some(p), Some(m)) => r matches Ok((a, b, c)) && a@ == h@ && b@ == p@
                    && c@ == m@,
                (Some(_), Some(_), None) => r == Err::<(&str, &str, &str), ArgsReadError>(
                    ArgsReadError::CommitTreeCommandErrorArgThree,
                ),
                (Some(_), None, _) => r == Err::<(&str, &str, &str), ArgsReadError>(
                    ArgsReadError::CommitTreeCommandErrorArgTwo,
                ),
                (None, _, _) => r == Err::<(&str, &str, &str), ArgsReadError>(
                    ArgsReadError::CommitTreeCommandErrorArgOne,
                ),
            },
    {
        match &self.hash {
            Some(hash) => match &self.print {
                Some(print) => match &self.message {
                    Some(message) => Ok((hash.as_str(), print.as_str(), message.as_str())),
                    None => Err(ArgsReadError::CommitTreeCommandErrorArgThree),
                },
                None => Err(ArgsReadError::CommitTreeCommandErrorArgTwo),
            },
            None => Err(ArgsReadError::CommitTreeCommandErrorArgOne),
        }
    }
}

/// Options of `clone`: the repository url and the target directory.
pub struct CloneRepOptions {
    pub url: Option<String>,
    pub dir: Option<String>,
}

impl CloneRepOptions {
    /// The url and the directory. A missing url and a missing directory are
    /// both reported as `CloneRepCommandErrorArgOne`.
    pub fn read(&self) -> (r: Result<(&str, &str), ArgsReadError>)
        ensures
            match (self.url, self.dir) {
                (Some(u), Some(d)) => r matches Ok((a, b)) && a@ == u@ && b@ == d@,
                _ => r == Err::<(&str, &str), ArgsReadError>(
                    ArgsReadError::CloneRepCommandErrorArgOne,
                ),
            },
    {
        match &self.url {
            Some(url) => match &self.dir {
                Some(dir) => Ok((url.as_str(), dir.as_str())),
                None => Err(ArgsReadError::CloneRepCommandErrorArgOne),
            },
            None => Err(ArgsReadError::CloneRepCommandErrorArgOne),
        }
    }
}

/// What is missing from the command line.
#[derive(Clone, Copy, PartialEq, Eq, Structural)]
pub enum ArgsReadError {
    ReadBlobCommandError,
    CreateBlobCommandError,
    ReadTreeCommandError,
    CommitTreeCommandErrorArgOne,
    CommitTreeCommandErrorArgTwo,
    CommitTreeCommandErrorArgThree,
    CloneRepCommandErrorArgOne,
    CloneRepCommandErrorArgTwo,
}

impl ArgsReadError {
    /// The text shown for each error.
    pub open spec fn text(self) -> Seq<char> {
        match self {
            ArgsReadError::ReadBlobCommandError =>
                "ERROR: Read a blob object: blob sha not found"@,
            ArgsReadError::CreateBlobCommandError =>
                "ERROR: Create a blob objec: blob sha not found"@,
            ArgsReadError::ReadTreeCommandError =>
                "ERROR: Read a tree object: tree sha not found"@,
            ArgsReadError::CommitTreeCommandErrorArgOne =>
                "ERROR: Commit a tree object: tree sha not found"@,
            ArgsReadError::CommitTreeCommandErrorArgTwo =>
                "ERROR: Commit a tree object: commit sha not found"@,
            ArgsReadError::CommitTreeCommandErrorArgThree =>
                "ERROR: Commit a tree object: message not found"@,
            ArgsReadError::CloneRepCommandErrorArgOne => "ERROR: Clone a repository: url not found"@,
            ArgsReadError::CloneRepCommandErrorArgTwo => "ERROR: Clone a repository: dir not found"@,
        }
    }

    /// The message of this error.
    pub fn message(&self) -> (r: &'static str)
        ensures
            r@ == self.text(),
    {
        match self {
            ArgsReadError::ReadBlobCommandError => "ERROR: Read a blob object: blob sha not found",
            ArgsReadError::CreateBlobCommandError =>
                "ERROR: Create a blob objec: blob sha not found",
            ArgsReadError::ReadTreeCommandError => "ERROR: Read a tree object: tree sha not found",
            ArgsReadError::CommitTreeCommandErrorArgOne =>
                "ERROR: Commit a tree object: tree sha not found",
            ArgsReadError::CommitTreeCommandErrorArgTwo =>
                "ERROR: Commit a tree object: commit sha not found",
            ArgsReadError::CommitTreeCommandErrorArgThree =>
                "ERROR: Commit a tree object: message not found",
            ArgsReadError::CloneRepCommandErrorArgOne => "ERROR: Clone a repository: url not found",
            ArgsReadError::CloneRepCommandErrorArgTwo => "ERROR: Clone a repository: dir not found",
        }
    }
}

/// Every argument error has a message of its own, and each message begins
/// with `ERROR: `.
pub proof fn lemma_args_error_messages(e1: ArgsReadError, e2: ArgsReadError)
    ensures
        e1 != e2 ==> e1.text() != e2.text(),
        e1.text().len() >= 7,
        e1.text().subrange(0, 7) == "ERROR: "@,
{
    reveal_strlit("ERROR: ");
    reveal_strlit("ERROR: Read a blob object: blob sha not found");
    reveal_strlit("ERROR: Create a blob objec: blob sha not found");
    reveal_strlit("ERROR: Read a tree object: tree sha not found");
    reveal_strlit("ERROR: Commit a tree object: tree sha not found");
    reveal_strlit("ERROR: Commit a tree object: commit sha not found");
    reveal_strlit("ERROR: Commit a tree object: message not found");
    reveal_strlit("ERROR: Clone a repository: url not found");
    reveal_strlit("ERROR: Clone a repository: dir not found");
    let t1 = e1.text();
    let t2 = e2.text();
    assert(t1.subrange(0, 7) =~= "ERROR: "@);
    if e1 != e2 && t1.len() == t2.len() {
        // the messages of equal length differ at one of these positions
        assert(t1[14] != t2[14] || t1[8] != t2[8] || t1[27] != t2[27]);
    }
}

} // verus!
