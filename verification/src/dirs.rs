//! Where files and sockets are. Paths are byte strings, as the system has them.

use vstd::prelude::*;
use vstd::utf8::*;

use crate::import::file_name;
use crate::text::append_bytes;

verus! {

/// A path with a component appended: an absolute one replaces the path, and there
/// is a slash between the two unless the path is empty or ends in one.
pub open spec fn joined(path: Seq<u8>, component: Seq<u8>) -> Seq<u8> {
    if component.len() > 0 && component[0] == 47 {
        component
    } else if path.len() == 0 || path.last() == 47 {
        path + component
    } else {
        path.push(47) + component
    }
}

/// Appends a component to a path.
pub fn push_component(path: &mut Vec<u8>, component: &[u8])
    ensures
        final(path)@ == joined(old(path)@, component@),
{
    if component.len() > 0 && component[0] == 47 {
        path.clear();
    } else if path.len() > 0 && path[path.len() - 1] != 47 {
        path.push(47);
    }
    append_bytes(path, component);
    assert(path@ =~= joined(old(path)@, component@));
}

/// The given path, or another if there is none.
pub open spec fn path_or(path: Option<&[u8]>, default: Seq<char>) -> Seq<u8> {
    match path {
        Some(path) => path@,
        None => encode_utf8(default),
    }
}

fn copy_path_or(path: Option<&[u8]>, default: &str) -> (copy: Vec<u8>)
    ensures
        copy@ == path_or(path, default@),
{
    match path {
        Some(path) => vstd::slice::slice_to_vec(path),
        None => vstd::slice::slice_to_vec(default.as_bytes()),
    }
}

/// Where the database is, given the directory for local data.
pub open spec fn spec_data_dir(local_data: Option<&[u8]>) -> Seq<u8> {
    joined(path_or(local_data, "/tmp/data"@), encode_utf8("clipboard-history"@))
}

/// Where the database is, given the user's directory for local data if there is
/// one.
#[must_use]
pub fn data_dir(local_data: Option<&[u8]>) -> (dir: Vec<u8>)
    ensures
        dir@ == spec_data_dir(local_data),
{
    let mut dir = copy_path_or(local_data, "/tmp/data");
    push_component(&mut dir, "clipboard-history".as_bytes());
    dir
}

/// Where the settings are, given the directory for local settings.
pub open spec fn spec_config_file_dir(local_config: Option<&[u8]>) -> Seq<u8> {
    joined(path_or(local_config, "/tmp/config"@), encode_utf8("ringboard"@))
}

/// Where the settings are, given the user's directory for local settings if there
/// is one.
#[must_use]
pub fn config_file_dir(local_config: Option<&[u8]>) -> (dir: Vec<u8>)
    ensures
        dir@ == spec_config_file_dir(local_config),
{
    let mut dir = copy_path_or(local_config, "/tmp/config");
    push_component(&mut dir, "ringboard".as_bytes());
    dir
}

/// The name of a socket: a set one, or a prefix with the directory of the database.
pub open spec fn spec_socket(
    set: Option<&[u8]>,
    prefix: Seq<char>,
    local_data: Option<&[u8]>,
) -> Seq<u8> {
    match set {
        Some(name) => name@,
        None => encode_utf8(prefix) + spec_data_dir(local_data),
    }
}

fn socket(set: Option<&[u8]>, prefix: &str, local_data: Option<&[u8]>) -> (name: Vec<u8>)
    ensures
        name@ == spec_socket(set, prefix@, local_data),
{
    match set {
        Some(name) => vstd::slice::slice_to_vec(name),
        None => {
            let mut name = vstd::slice::slice_to_vec(prefix.as_bytes());
            let dir = data_dir(local_data);
            append_bytes(&mut name, dir.as_slice());
            name
        },
    }
}

/// The name of the server's socket, given the value of `RINGBOARD_SOCK` if it is
/// set.
#[must_use]
pub fn socket_name(set: Option<&[u8]>, local_data: Option<&[u8]>) -> (name: Vec<u8>)
    ensures
        name@ == spec_socket(set, "ringboard-server:"@, local_data),
{
    socket(set, "ringboard-server:", local_data)
}

/// The name of the paste server's socket, given the value of `PASTE_SOCK` if it is
/// set.
#[must_use]
pub fn paste_socket_name(set: Option<&[u8]>, local_data: Option<&[u8]>) -> (name: Vec<u8>)
    ensures
        name@ == spec_socket(set, "ringboard-paste:"@, local_data),
{
    socket(set, "ringboard-paste:", local_data)
}

/// Unless they are set, no two databases, in whatever place, have a server socket
/// and a paste socket of the same name.
pub proof fn lemma_sockets_differ(local_data: Option<&[u8]>, other_data: Option<&[u8]>)
    ensures
        spec_socket(None, "ringboard-server:"@, local_data) != spec_socket(
            None,
            "ringboard-paste:"@,
            other_data,
        ),
{
    reveal_strlit("ringboard-server:");
    reveal_strlit("ringboard-paste:");
    let server = encode_utf8("ringboard-server:"@);
    let paste = encode_utf8("ringboard-paste:"@);
    is_ascii_chars_encode_utf8("ringboard-server:"@);
    is_ascii_chars_encode_utf8("ringboard-paste:"@);
    assert(server[10] != paste[10]);
    assert((server + spec_data_dir(local_data))[10] == server[10]);
    assert((paste + spec_data_dir(other_data))[10] == paste[10]);
}

/// Unless it is set, the name of a server's socket tells where the database is.
pub proof fn lemma_socket_names_database(prefix: Seq<char>, a: Option<&[u8]>, b: Option<&[u8]>)
    requires
        spec_socket(None, prefix, a) == spec_socket(None, prefix, b),
    ensures
        spec_data_dir(a) == spec_data_dir(b),
{
    let n = encode_utf8(prefix).len() as int;
    assert((encode_utf8(prefix) + spec_data_dir(a)).skip(n) =~= spec_data_dir(a));
    assert((encode_utf8(prefix) + spec_data_dir(b)).skip(n) =~= spec_data_dir(b));
}

/// The last part of the path of a home directory, or a stand-in for it.
pub open spec fn user_name(home: Option<&str>) -> Seq<u8> {
    match home {
        Some(home) => encode_utf8(crate::import::last_segment(home@)),
        None => encode_utf8("default"@),
    }
}

fn push_user_name(path: &mut Vec<u8>, home: Option<&str>)
    ensures
        final(path)@ == joined(old(path)@, user_name(home)),
{
    match home {
        Some(home) => push_component(path, file_name(home).as_bytes()),
        None => push_component(path, "default".as_bytes()),
    }
}

/// How much of a file's name is left without its extension, which starts at the
/// last dot that is not the first byte.
pub open spec fn stem_len(name: Seq<u8>) -> int
    decreases name.len(),
{
    if name.len() <= 1 {
        -1
    } else if name.last() == 46 {
        name.len() - 1
    } else {
        stem_len(name.drop_last())
    }
}

/// A file's name without its extension.
pub open spec fn stem(name: Seq<u8>) -> Seq<u8> {
    if stem_len(name) < 0 {
        name
    } else {
        name.take(stem_len(name))
    }
}

proof fn lemma_stem_len(name: Seq<u8>, dot: int)
    requires
        0 <= dot < name.len(),
        forall|i: int| dot < i < name.len() ==> #[trigger] name[i] != 46,
        dot > 0 ==> name[dot] == 46,
    ensures
        stem_len(name) == if dot > 0 {
            dot
        } else {
            -1
        },
    decreases name.len(),
{
    if dot < name.len() - 1 {
        lemma_stem_len(name.drop_last(), dot);
    }
}

/// The path of the socket in the temporary directory, by the name of the user. A
/// name that stands for the directory itself, or for the one above it, is no file.
pub open spec fn spec_socket_file(name: Seq<u8>) -> Seq<u8> {
    if name.len() == 0 || name == seq![46u8] {
        encode_utf8("/tmp.clipboard-history"@)
    } else if name == seq![46u8, 46u8] {
        encode_utf8("/tmp/.."@)
    } else {
        encode_utf8("/tmp/"@) + stem(name) + encode_utf8(".clipboard-history"@)
    }
}

/// The path of the socket file, given the path of the user's home directory if
/// there is one: it has the last part of that path for a name, with its own
/// extension.
#[must_use]
pub fn socket_file(home: Option<&str>) -> (path: Vec<u8>)
    ensures
        path@ == spec_socket_file(user_name(home)),
{
    let name: &[u8] = match home {
        Some(home) => file_name(home).as_bytes(),
        None => "default".as_bytes(),
    };
    if name.len() == 0 || (name.len() == 1 && name[0] == 46) {
        proof {
            assert(name@.len() == 1 ==> name@ =~= seq![name@[0]]);
        }
        return vstd::slice::slice_to_vec("/tmp.clipboard-history".as_bytes());
    }
    if name.len() == 2 && name[0] == 46 && name[1] == 46 {
        assert(name@ =~= seq![46u8, 46u8]);
        return vstd::slice::slice_to_vec("/tmp/..".as_bytes());
    }
    let mut dot: usize = name.len() - 1;
    while dot > 0 && name[dot] != 46
        invariant
            dot < name@.len(),
            forall|i: int| dot < i < name@.len() ==> #[trigger] name@[i] != 46,
        decreases dot,
    {
        dot -= 1;
    }
    proof {
        lemma_stem_len(name@, dot as int);
    }
    let len: usize = if dot > 0 {
        dot
    } else {
        name.len()
    };
    let mut path = vstd::slice::slice_to_vec("/tmp/".as_bytes());
    append_bytes(&mut path, vstd::slice::slice_subrange(name, 0, len));
    append_bytes(&mut path, ".clipboard-history".as_bytes());
    assert(name@.subrange(0, len as int) =~= stem(name@));
    path
}

/// The file whose removal wakes up the window that sleeps in the background, given
/// the path of the user's home directory if there is one.
#[must_use]
pub fn sleep_file_name(home: Option<&str>) -> (path: Vec<u8>)
    ensures
        path@ == joined(
            joined(encode_utf8("/tmp/.ringboard"@), user_name(home)),
            encode_utf8("egui/sleep.lock"@),
        ),
{
    let mut path = vstd::slice::slice_to_vec("/tmp/.ringboard".as_bytes());
    push_user_name(&mut path, home);
    push_component(&mut path, "egui/sleep.lock".as_bytes());
    path
}

/// What is appended to a path stands at its end, after a slash and after the path as it was.
/// An absolute path stands for itself.
pub proof fn lemma_component_is_appended(path: &mut Vec<u8>, component: &[u8])
    requires
        call_ensures(push_component, (path, component), ()),
    ensures
        final(path)@.len() >= component@.len(),
        final(path)@.skip(final(path)@.len() - component@.len()) == component@,
        component@.len() > 0 && component@[0] == '/' as u8 ==> final(path)@ == component@,
        !(component@.len() > 0 && component@[0] == '/' as u8) ==> {
            let after = final(path)@;
            let before = old(path)@;
            let slash = after.len() - component@.len() - 1;
            &&& after.len() >= before.len() + component@.len()
            &&& after.take(before.len() as int) == before
            &&& before.len() == 0 ==> after == component@
            &&& before.len() > 0 ==> after[slash] == '/' as u8
            &&& before.len() > 0 ==> slash == before.len() || slash == before.len() - 1
            &&& before.len() > 0 && before.last() == '/' as u8 ==> slash == before.len() - 1
        },
{
    let after = final(path)@;
    let before = old(path)@;
    assert(after.skip(after.len() - component@.len()) =~= component@);
    if !(component@.len() > 0 && component@[0] == '/' as u8) {
        assert(after.take(before.len() as int) =~= before);
        if before.len() == 0 {
            assert(after =~= component@);
        }
    }
}

/// The database is in the directory `clipboard-history` of the directory for local data.
pub proof fn lemma_database_is_in_local_data(local_data: Option<&[u8]>, dir: Vec<u8>)
    requires
        call_ensures(data_dir, (local_data,), dir),
    ensures
        local_data matches Some(data) ==> data@.len() > 0 && data@.last() != '/' as u8 ==> dir@
            == data@ + encode_utf8("/clipboard-history"@),
        local_data is None ==> dir@ == encode_utf8("/tmp/data/clipboard-history"@),
{
    reveal_strlit("/clipboard-history");
    reveal_strlit("clipboard-history");
    reveal_strlit("/tmp/data");
    reveal_strlit("/tmp/data/clipboard-history");
    is_ascii_chars_encode_utf8("/clipboard-history"@);
    is_ascii_chars_encode_utf8("clipboard-history"@);
    is_ascii_chars_encode_utf8("/tmp/data"@);
    is_ascii_chars_encode_utf8("/tmp/data/clipboard-history"@);
    let end = encode_utf8("/clipboard-history"@);
    assert(end =~= seq![47u8] + encode_utf8("clipboard-history"@));
    if let Some(data) = local_data {
        if data@.len() > 0 && data@.last() != '/' as u8 {
            assert(dir@ =~= data@ + end);
        }
    } else {
        assert(dir@ =~= encode_utf8("/tmp/data"@) + end);
        assert(dir@ =~= encode_utf8("/tmp/data/clipboard-history"@));
    }
}

/// The settings are in the directory `ringboard` of the directory for local settings.
pub proof fn lemma_settings_are_in_local_config(local_config: Option<&[u8]>, dir: Vec<u8>)
    requires
        call_ensures(config_file_dir, (local_config,), dir),
    ensures
        local_config matches Some(config) ==> config@.len() > 0 && config@.last() != '/' as u8
            ==> dir@ == config@ + encode_utf8("/ringboard"@),
        local_config is None ==> dir@ == encode_utf8("/tmp/config/ringboard"@),
{
    reveal_strlit("/ringboard");
    reveal_strlit("ringboard");
    reveal_strlit("/tmp/config");
    reveal_strlit("/tmp/config/ringboard");
    is_ascii_chars_encode_utf8("/ringboard"@);
    is_ascii_chars_encode_utf8("ringboard"@);
    is_ascii_chars_encode_utf8("/tmp/config"@);
    is_ascii_chars_encode_utf8("/tmp/config/ringboard"@);
    let end = encode_utf8("/ringboard"@);
    assert(end =~= seq![47u8] + encode_utf8("ringboard"@));
    if let Some(config) = local_config {
        if config@.len() > 0 && config@.last() != '/' as u8 {
            assert(dir@ =~= config@ + end);
        }
    } else {
        assert(dir@ =~= encode_utf8("/tmp/config"@) + end);
        assert(dir@ =~= encode_utf8("/tmp/config/ringboard"@));
    }
}

/// A socket has the name that is set, or else one that ends in where the database is.
pub proof fn lemma_socket_is_named(
    set: Option<&[u8]>,
    local_data: Option<&[u8]>,
    dir: Vec<u8>,
    server: Vec<u8>,
    paste: Vec<u8>,
)
    requires
        call_ensures(data_dir, (local_data,), dir),
        call_ensures(socket_name, (set, local_data), server),
        call_ensures(paste_socket_name, (set, local_data), paste),
    ensures
        set matches Some(name) ==> server@ == name@ && paste@ == name@,
        set is None ==> server@ == encode_utf8("ringboard-server:"@) + dir@,
        set is None ==> paste@ == encode_utf8("ringboard-paste:"@) + dir@,
{
}

/// The extension of a name is what follows its last dot, unless that is the first byte.
pub proof fn lemma_stem(base: Seq<u8>, extension: Seq<u8>)
    requires
        forall|i: int| 0 <= i < extension.len() ==> #[trigger] extension[i] != '.' as u8,
    ensures
        base.len() > 0 ==> stem(base.push('.' as u8) + extension) == base,
        stem(extension) == extension,
        stem(seq!['.' as u8] + extension) == seq!['.' as u8] + extension,
{
    let name = base.push(46) + extension;
    if base.len() > 0 {
        assert forall|i: int| base.len() < i < name.len() implies #[trigger] name[i] != 46 by {
            assert(name[i] == extension[i - base.len() - 1]);
        }
        lemma_stem_len(name, base.len() as int);
        assert(name.take(base.len() as int) =~= base);
    }
    if extension.len() > 0 {
        lemma_stem_len(extension, 0);
    }
    let hidden = seq![46u8] + extension;
    assert forall|i: int| 0 < i < hidden.len() implies #[trigger] hidden[i] != 46 by {
        assert(hidden[i] == extension[i - 1]);
    }
    lemma_stem_len(hidden, 0);
}

/// The socket file is in `/tmp`, with the name of the home directory and an extension of its
/// own, which replaces one that the name has.
pub proof fn lemma_socket_file_is_named(
    home: Option<&str>,
    base: Seq<u8>,
    extension: Seq<u8>,
    path: Vec<u8>,
)
    requires
        call_ensures(socket_file, (home,), path),
        forall|i: int| 0 <= i < extension.len() ==> #[trigger] extension[i] != '.' as u8,
    ensures
        home matches Some(home) ==> {
            let name = encode_utf8(crate::import::last_segment(home@));
            let end = encode_utf8(".clipboard-history"@);
            &&& name == extension && extension.len() > 0 ==> path@ == encode_utf8("/tmp/"@)
                + extension + end
            &&& name == base.push('.' as u8) + extension && base.len() > 0 && name != seq![
                '.' as u8,
                '.' as u8,
            ] ==> path@ == encode_utf8("/tmp/"@) + base + end
        },
        home is None ==> path@ == encode_utf8("/tmp/default.clipboard-history"@),
{
    lemma_stem(base, extension);
    if let Some(home) = home {
        let name = encode_utf8(crate::import::last_segment(home@));
        if name == extension && extension.len() > 0 {
            assert(name[0] != 46);
        }
        if name == base.push(46) + extension {
            assert(name.len() > base.len());
        }
    } else {
        reveal_strlit("default");
        reveal_strlit("/tmp/");
        reveal_strlit(".clipboard-history");
        reveal_strlit("/tmp/default.clipboard-history");
        is_ascii_chars_encode_utf8("default"@);
        is_ascii_chars_encode_utf8("/tmp/"@);
        is_ascii_chars_encode_utf8(".clipboard-history"@);
        is_ascii_chars_encode_utf8("/tmp/default.clipboard-history"@);
        let name = encode_utf8("default"@);
        assert forall|i: int| 0 <= i < name.len() implies #[trigger] name[i] != 46 by {
        }
        lemma_stem(Seq::empty(), name);
        assert(path@ =~= encode_utf8("/tmp/default.clipboard-history"@));
    }
}

/// The sleep file has a place of its own for each name of a home directory.
pub proof fn lemma_sleep_file_is_named(home: &str, path: Vec<u8>)
    requires
        call_ensures(sleep_file_name, (Some(home),), path),
        ({
            let name = encode_utf8(crate::import::last_segment(home@));
            name.len() > 0 && name[0] != '/' as u8 && name.last() != '/' as u8
        }),
    ensures
        path@ == encode_utf8("/tmp/.ringboard/"@) + encode_utf8(
            crate::import::last_segment(home@),
        ) + encode_utf8("/egui/sleep.lock"@),
{
    reveal_strlit("/tmp/.ringboard");
    reveal_strlit("/tmp/.ringboard/");
    reveal_strlit("egui/sleep.lock");
    reveal_strlit("/egui/sleep.lock");
    is_ascii_chars_encode_utf8("/tmp/.ringboard"@);
    is_ascii_chars_encode_utf8("/tmp/.ringboard/"@);
    is_ascii_chars_encode_utf8("egui/sleep.lock"@);
    is_ascii_chars_encode_utf8("/egui/sleep.lock"@);
    let name = encode_utf8(crate::import::last_segment(home@));
    assert(encode_utf8("/tmp/.ringboard/"@) =~= encode_utf8("/tmp/.ringboard"@).push(47));
    assert(encode_utf8("/egui/sleep.lock"@) =~= seq![47u8] + encode_utf8("egui/sleep.lock"@));
    let dir = joined(encode_utf8("/tmp/.ringboard"@), name);
    assert(dir.last() == name.last());
    assert(path@ =~= encode_utf8("/tmp/.ringboard/"@) + name + encode_utf8("/egui/sleep.lock"@));
}

} // verus!
