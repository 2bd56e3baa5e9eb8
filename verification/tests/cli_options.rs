use git_starter_rust::cli::{
    ArgsReadError, CloneRepOptions, CommitTreeOptions, CreateBlobOptions, ReadBlobOptions,
    ReadTreeOptions,
};

#[test]
fn read_blob_option_present() {
    let o = ReadBlobOptions { print: Some("8a68edea4924829fe663c18dfd9b2ffb3b773e65".to_string()) };
    assert_eq!(o.read().ok(), Some("8a68edea4924829fe663c18dfd9b2ffb3b773e65"));
}

#[test]
fn read_blob_option_missing() {
    let o = ReadBlobOptions { print: None };
    assert!(o.read().err() == Some(ArgsReadError::ReadBlobCommandError));
}

#[test]
fn create_blob_option() {
    let o = CreateBlobOptions { file: Some("dooby.txt".to_string()) };
    assert_eq!(o.read().ok(), Some("dooby.txt"));
    let o = CreateBlobOptions { file: None };
    assert!(o.read().err() == Some(ArgsReadError::CreateBlobCommandError));
}

#[test]
fn read_tree_option() {
    let o = ReadTreeOptions { hash: Some("f2d1f407ac46465b8107db3f2671b97d191cbfa8".to_string()) };
    assert_eq!(o.read().ok(), Some("f2d1f407ac46465b8107db3f2671b97d191cbfa8"));
    let o = ReadTreeOptions { hash: None };
    assert!(o.read().err() == Some(ArgsReadError::ReadTreeCommandError));
}

#[test]
fn commit_tree_options_all_present() {
    let o = CommitTreeOptions {
        hash: Some("a5023aefc54252953ae544d75d9e7073ca4a33ca".to_string()),
        print: Some("e82b99fbf78f96399ef39c37d87edeebefdd2a0e".to_string()),
        message: Some("horsey dumpty monkey vanilla yikes dooby".to_string()),
    };
    assert_eq!(
        o.read().ok(),
        Some((
            "a5023aefc54252953ae544d75d9e7073ca4a33ca",
            "e82b99fbf78f96399ef39c37d87edeebefdd2a0e",
            "horsey dumpty monkey vanilla yikes dooby"
        ))
    );
}

#[test]
fn commit_tree_options_first_missing_named() {
    let o = CommitTreeOptions { hash: None, print: None, message: None };
    assert!(o.read().err() == Some(ArgsReadError::CommitTreeCommandErrorArgOne));
    let o = CommitTreeOptions { hash: Some("t".to_string()), print: None, message: None };
    assert!(o.read().err() == Some(ArgsReadError::CommitTreeCommandErrorArgTwo));
    let o = CommitTreeOptions {
        hash: Some("t".to_string()),
        print: Some("p".to_string()),
        message: None,
    };
    assert!(o.read().err() == Some(ArgsReadError::CommitTreeCommandErrorArgThree));
}

#[test]
fn clone_options() {
    let o = CloneRepOptions {
        url: Some("https://github.com/codecrafters-io/git-sample-1".to_string()),
        dir: Some("test_dir".to_string()),
    };
    assert_eq!(
        o.read().ok(),
        Some(("https://github.com/codecrafters-io/git-sample-1", "test_dir"))
    );
    let o = CloneRepOptions { url: Some("u".to_string()), dir: None };
    assert!(o.read().err() == Some(ArgsReadError::CloneRepCommandErrorArgOne));
    let o = CloneRepOptions { url: None, dir: Some("d".to_string()) };
    assert!(o.read().err() == Some(ArgsReadError::CloneRepCommandErrorArgOne));
}

#[test]
fn args_error_messages() {
    assert_eq!(
        ArgsReadError::ReadBlobCommandError.message(),
        "ERROR: Read a blob object: blob sha not found"
    );
    assert_eq!(
        ArgsReadError::CommitTreeCommandErrorArgThree.message(),
        "ERROR: Commit a tree object: message not found"
    );
    assert_eq!(
        ArgsReadError::CloneRepCommandErrorArgTwo.message(),
        "ERROR: Clone a repository: dir not found"
    );
}

#[test]
fn args_error_messages_distinct() {
    let all = [
        ArgsReadError::ReadBlobCommandError,
        ArgsReadError::CreateBlobCommandError,
        ArgsReadError::ReadTreeCommandError,
        ArgsReadError::CommitTreeCommandErrorArgOne,
        ArgsReadError::CommitTreeCommandErrorArgTwo,
        ArgsReadError::CommitTreeCommandErrorArgThree,
        ArgsReadError::CloneRepCommandErrorArgOne,
        ArgsReadError::CloneRepCommandErrorArgTwo,
    ];
    for (i, a) in all.iter().enumerate() {
        assert!(a.message().starts_with("ERROR: "));
        for b in all.iter().skip(i + 1) {
            assert_ne!(a.message(), b.message());
        }
    }
}
