//! Where stadhouder keeps its files: everything lives in one folder beside the
//! web root, so that none of it can be downloaded. Paths are texts.
use crate::paths;
use crate::paths::{find_style, folder_of, has_drive, is_divider};
use crate::text;
use crate::text::{cat3, replace, to_chars};
use vstd::prelude::*;

verus! {

/// The kind of platform: it says how paths are written, and what pipes are.
#[derive(Clone, Copy, PartialEq, Eq, Structural)]
pub enum Platform {
    /// Parts of a path have `/` between them. Pipes are FIFOs: files in the
    /// stadhouder folder.
    Unix,
    /// Parts of a path have `\` between them. Pipes have a namespace of their
    /// own.
    Windows,
}

/// What stands between the parts of a path.
pub open spec fn separator(platform: Platform) -> char {
    match platform {
        Platform::Unix => '/',
        Platform::Windows => '\\',
    }
}

/// Whether a name can follow a folder's path as it is: the path is empty, or
/// ends where a part does, or is a bare drive.
pub open spec fn open_ended(platform: Platform, dir: Seq<char>) -> bool {
    ||| dir.len() == 0
    ||| paths::divides(paths::style_of(platform, dir), dir.last())
    ||| platform is Windows && dir.len() == 2 && paths::drive(dir)
}

/// `name` inside the folder `dir`.
pub open spec fn inside(platform: Platform, dir: Seq<char>, name: Seq<char>) -> Seq<char> {
    if open_ended(platform, dir) {
        dir + name
    } else {
        dir.push(separator(platform)) + name
    }
}

/// The path of `name` inside the folder `dir`.
pub fn join_path(platform: Platform, dir: &str, name: &str) -> (r: String)
    ensures
        r@ == inside(platform, dir@, name@),
{
    let chars = to_chars(dir);
    let n: usize = chars.len();
    let style = find_style(platform, &chars);
    let mut r = dir.to_owned();
    if n > 0 && !is_divider(style, chars[n - 1]) && !(platform == Platform::Windows && n == 2
        && has_drive(&chars)) {
        r.push(
            match platform {
                Platform::Unix => '/',
                Platform::Windows => '\\',
            },
        );
    }
    r.append(name);
    r
}

/// What is said where DOCUMENT_ROOT is not set.
pub open spec fn unset() -> Seq<char> {
    "DOCUMENT_ROOT env var not set"@
}

/// What is said where DOCUMENT_ROOT is in no folder.
pub open spec fn homeless(document_root: Seq<char>) -> Seq<char> {
    "could not determine parent of DOCUMENT_ROOT '"@ + document_root + "'"@
}

/// The account's home: the folder that the web root is in.
pub open spec fn home(platform: Platform, document_root: Option<Seq<char>>) -> Result<
    Seq<char>,
    Seq<char>,
> {
    match document_root {
        None => Err(unset()),
        Some(root) => match paths::parent(platform, root) {
            Some(home) => Ok(home),
            None => Err(homeless(root)),
        },
    }
}

/// The folder `name` inside a folder, where that is known.
pub open spec fn folder_in(
    platform: Platform,
    dir: Result<Seq<char>, Seq<char>>,
    name: Seq<char>,
) -> Result<Seq<char>, Seq<char>> {
    match dir {
        Ok(dir) => Ok(inside(platform, dir, name)),
        Err(e) => Err(e),
    }
}

/// The folder that the web root is in: the account's home. `document_root` is
/// the environment's DOCUMENT_ROOT. The root folder is in none.
pub fn home_dir(platform: Platform, document_root: Option<&str>) -> (r: Result<String, String>)
    ensures
        text::answer(r) == home(platform, text::opt_text(document_root)),
{
    match document_root {
        None => Err("DOCUMENT_ROOT env var not set".to_owned()),
        Some(root) => match folder_of(platform, root) {
            Some(home) => Ok(home),
            None => Err(cat3("could not determine parent of DOCUMENT_ROOT '", root, "'")),
        },
    }
}

/// The one folder that holds everything stadhouder keeps on disk, beside the web
/// root.
pub open spec fn stadhouder_folder(platform: Platform, document_root: Option<Seq<char>>) -> Result<
    Seq<char>,
    Seq<char>,
> {
    folder_in(platform, home(platform, document_root), "stadhouder"@)
}

/// The one folder that holds everything stadhouder keeps on disk.
pub fn stadhouder_dir(platform: Platform, document_root: Option<&str>) -> (r: Result<
    String,
    String,
>)
    ensures
        text::answer(r) == stadhouder_folder(platform, text::opt_text(document_root)),
{
    match home_dir(platform, document_root) {
        Ok(home) => Ok(join_path(platform, home.as_str(), "stadhouder")),
        Err(e) => Err(e),
    }
}

/// What stadhouder keeps is beside the web root, and not in it: its folder is in
/// the folder that the web root is in. On Windows that is so unless the name of
/// the folder comes to be read as that of a share.
pub proof fn stadhouder_is_beside_the_web_root(platform: Platform, root: Seq<char>)
    requires
        paths::parent(platform, root) is Some,
        ({
            let path = inside(platform, paths::parent(platform, root)->Some_0, "stadhouder"@);
            let style = paths::style_of(platform, root);
            &&& paths::style_of(platform, path) == style
            &&& paths::prefix_len(style, path) == paths::prefix_len(style, root)
        }),
    ensures
        ({
            let path = inside(platform, paths::parent(platform, root)->Some_0, "stadhouder"@);
            &&& stadhouder_folder(platform, Some(root)) == Ok::<Seq<char>, Seq<char>>(path)
            &&& paths::parent(platform, path) == paths::parent(platform, root)
        }),
{
    reveal_strlit("stadhouder");
    paths::a_name_is_in_its_folder(platform, root, "stadhouder"@);
}

/// The form a connection id takes in file and pipe names.
pub open spec fn underscored(connection_id: Seq<char>) -> Seq<char> {
    text::replaced(connection_id, '-', '_')
}

/// A connection id with underscores for dashes.
pub fn underscore_uuid(connection_id: &str) -> (r: String)
    ensures
        r@ == underscored(connection_id@),
{
    let chars = to_chars(connection_id);
    replace(&chars, '-', '_')
}

/// Putting the dashes back gives the connection id, where it has no underscore
/// of its own.
pub proof fn dashes_come_back(connection_id: Seq<char>)
    requires
        !connection_id.contains('_'),
    ensures
        text::replaced(underscored(connection_id), '_', '-') == connection_id,
{
    assert forall|i: int| 0 <= i < connection_id.len() implies text::replaced(
        underscored(connection_id),
        '_',
        '-',
    )[i] == connection_id[i] by {
        assert(connection_id.contains(connection_id[i]));
    }
}

/// What is in a folder is written behind the folder's path, with one separator
/// between where none is there yet, and none where it is.
pub proof fn a_name_stands_behind_its_folder(platform: Platform, dir: Seq<char>, name: Seq<char>)
    ensures
        inside(platform, dir, name) == dir + name || inside(platform, dir, name) == dir.push(
            separator(platform),
        ) + name,
        platform is Unix && dir.len() > 0 && dir.last() != '/' ==> inside(platform, dir, name)
            == dir.push('/') + name,
        platform is Unix && (dir.len() == 0 || dir.last() == '/') ==> inside(platform, dir, name)
            == dir + name,
        platform is Windows && dir.len() > 2 && dir.last() != '\\' && dir.last() != '/' ==> inside(
            platform,
            dir,
            name,
        ) == dir.push('\\') + name,
        platform is Windows && dir.len() > 0 && dir.last() == '\\' ==> inside(platform, dir, name)
            == dir + name,
{
}

/// The home is the folder that the web root is in, and the stadhouder folder is in
/// the home, under its own name. Without a web root, or where that is in no folder,
/// there is neither, and the answer says why.
pub proof fn stadhouder_is_in_the_home(platform: Platform, document_root: Option<Seq<char>>)
    ensures
        document_root is None ==> home(platform, document_root) == Err::<Seq<char>, Seq<char>>(
            "DOCUMENT_ROOT env var not set"@,
        ),
        document_root matches Some(root) ==> paths::parent(platform, root) matches Some(folder)
            ==> home(platform, document_root) == Ok::<Seq<char>, Seq<char>>(folder),
        document_root matches Some(root) ==> (paths::parent(platform, root) is None ==> home(
            platform,
            document_root,
        ) == Err::<Seq<char>, Seq<char>>(
            "could not determine parent of DOCUMENT_ROOT '"@ + root + "'"@,
        )),
        home(platform, document_root) matches Ok(folder) ==> stadhouder_folder(
            platform,
            document_root,
        ) == Ok::<Seq<char>, Seq<char>>(inside(platform, folder, "stadhouder"@)),
        home(platform, document_root) matches Err(e) ==> stadhouder_folder(platform, document_root)
            == Err::<Seq<char>, Seq<char>>(e),
{
}

/// In names an id has underscores for its dashes, and is otherwise as it is.
pub proof fn ids_lose_their_dashes(connection_id: Seq<char>, i: int)
    requires
        0 <= i < connection_id.len(),
    ensures
        underscored(connection_id).len() == connection_id.len(),
        underscored(connection_id)[i] == if connection_id[i] == '-' {
            '_'
        } else {
            connection_id[i]
        },
{
}

} // verus!
