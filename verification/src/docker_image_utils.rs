//! Layers, and the cache that keeps them between runs.
//!
//! The cache is a directory with two files for each layer, named by the
//! layer's digest: the layer's tree as a JSON document, and the command
//! that built the layer as plain text. The library decides what the files
//! are called, what they hold and which layers count as cached; whoever
//! uses it reads and writes the files.

use crate::exceptions::ImageParcingError;
use crate::file_tree::{join, join_path, FileTree};
use crate::json::{json_parsed, json_text, tree_document, tree_in};
use crate::text::{same_chars, to_chars};
use vstd::prelude::*;
use vstd::string::{StrSliceExecFns, StringExecFns};

verus! {

/// One layer of an image: its digest, the tree of its entries, and the
/// command that built it.
#[derive(Debug, PartialEq, Eq)]
pub struct ImageLayer {
    pub name: String,
    pub tree: FileTree,
    pub command: String,
}

/// A file that is to be written: where, and what.
#[derive(Debug, PartialEq, Eq)]
pub struct CacheFile {
    pub path: String,
    pub content: String,
}

/// The name of the file that holds the tree of the layer `digest`.
pub open spec fn tree_file_name(digest: Seq<char>) -> Seq<char> {
    digest + seq!['.', 'j', 's', 'o', 'n']
}

/// The name of the file that holds the command of the layer `digest`.
pub open spec fn command_file_name(digest: Seq<char>) -> Seq<char> {
    digest + seq!['.', 'c', 'm', 'd']
}

/// Whether a cache directory that holds the files `files` holds the layer
/// `digest`: both of the layer's files must be there.
pub open spec fn is_cached(files: Seq<Seq<char>>, digest: Seq<char>) -> bool {
    files.contains(tree_file_name(digest)) && files.contains(command_file_name(digest))
}

/// The directory of the cache below the home directory `home`.
pub open spec fn cache_dir_below(home: Seq<char>) -> Seq<char> {
    join_path(home, ".cache/freightview"@)
}

/// The names of the files that the cache directory holds.
#[derive(Debug, PartialEq, Eq)]
pub struct CacheIndex {
    files: Vec<String>,
}

/// The names that a run of strings holds.
pub open spec fn texts(names: Seq<String>) -> Seq<Seq<char>> {
    names.map_values(|s: String| s@)
}

impl View for CacheIndex {
    type V = Seq<Seq<char>>;

    closed spec fn view(&self) -> Seq<Seq<char>> {
        texts(self.files@)
    }
}

impl CacheIndex {
    /// The index of a cache directory that holds the given files.
    pub fn new(files: Vec<String>) -> (index: CacheIndex)
        ensures
            index@ == texts(files@),
    {
        CacheIndex { files }
    }

    /// Whether the directory holds a file of the given name.
    pub fn has_file(&self, name: &str) -> (found: bool)
        ensures
            found == self@.contains(name@),
    {
        let wanted = to_chars(name);
        let mut i: usize = 0;
        while i < self.files.len()
            invariant
                i <= self.files.len(),
                wanted@ == name@,
                forall|j: int| 0 <= j < i ==> (#[trigger] self@[j]) != name@,
            decreases self.files.len() - i,
        {
            assert(self@[i as int] == self.files@[i as int]@);
            let here = to_chars(self.files[i].as_str());
            if same_chars(&here, &wanted) {
                return true;
            }
            i += 1;
        }
        false
    }

    /// Notes that the directory now holds a file of the given name.
    pub fn add_file(&mut self, name: String)
        ensures
            final(self)@ == old(self)@.push(name@),
    {
        self.files.push(name);
        assert(self@ =~= old(self)@.push(name@));
    }
}

/// `digest` followed by `ending`.
fn with_ending(digest: &str, ending: &str) -> (name: String)
    ensures
        name@ == digest@ + ending@,
{
    String::from_str(digest).concat(ending)
}

impl ImageLayer {
    /// The layer with the given digest, tree and command.
    pub fn new(name: String, tree: FileTree, command: String) -> (layer: ImageLayer)
        ensures
            layer.name == name,
            layer.tree == tree,
            layer.command == command,
    {
        ImageLayer { name, tree, command }
    }

    /// The directory of the cache: `.cache/freightview` below the home
    /// directory. Without a home directory there is no cache.
    pub fn get_cache_dir(home: Option<&str>) -> (dir: Result<String, ImageParcingError>)
        ensures
            match home {
                Some(h) => dir matches Ok(d) && d@ == cache_dir_below(h@),
                None => dir == Err::<String, ImageParcingError>(ImageParcingError::CantGetAHomeDir),
            },
    {
        match home {
            Some(h) => Ok(join(h, ".cache/freightview")),
            None => Err(ImageParcingError::CantGetAHomeDir),
        }
    }

    /// The path of the file that holds the tree of the layer `layer`.
    pub fn get_layer_path_wstr(cache_dir: &str, layer: &str) -> (path: String)
        ensures
            path@ == join_path(cache_dir@, tree_file_name(layer@)),
    {
        proof {
            reveal_strlit(".json");
            assert(".json"@ =~= seq!['.', 'j', 's', 'o', 'n']);
        }
        join(cache_dir, with_ending(layer, ".json").as_str())
    }

    /// The path of the file that holds the tree of this layer.
    pub fn get_layer_path(&self, cache_dir: &str) -> (path: String)
        ensures
            path@ == join_path(cache_dir@, tree_file_name(self.name@)),
    {
        ImageLayer::get_layer_path_wstr(cache_dir, self.name.as_str())
    }

    /// The path of the file that holds the command of the layer `layer`.
    pub fn get_layer_path_cmd_wstr(cache_dir: &str, layer: &str) -> (path: String)
        ensures
            path@ == join_path(cache_dir@, command_file_name(layer@)),
    {
        proof {
            reveal_strlit(".cmd");
            assert(".cmd"@ =~= seq!['.', 'c', 'm', 'd']);
        }
        join(cache_dir, with_ending(layer, ".cmd").as_str())
    }

    /// The path of the file that holds the command of this layer.
    pub fn get_layer_path_cmd(&self, cache_dir: &str) -> (path: String)
        ensures
            path@ == join_path(cache_dir@, command_file_name(self.name@)),
    {
        ImageLayer::get_layer_path_cmd_wstr(cache_dir, self.name.as_str())
    }

    /// Whether the cache holds the layer `layer`: both of its files.
    pub fn check_cache(index: &CacheIndex, layer: &str) -> (cached: bool)
        ensures
            cached == is_cached(index@, layer@),
    {
        proof {
            reveal_strlit(".json");
            reveal_strlit(".cmd");
            assert(".json"@ =~= seq!['.', 'j', 's', 'o', 'n']);
            assert(".cmd"@ =~= seq!['.', 'c', 'm', 'd']);
        }
        let tree_name = with_ending(layer, ".json");
        let command_name = with_ending(layer, ".cmd");
        index.has_file(tree_name.as_str()) && index.has_file(command_name.as_str())
    }

    /// The two files that keep the layer in the cache, in the order in
    /// which they are to be written: the tree, then the command. The index
    /// counts the layer as cached from now on. Where the tree cannot be
    /// written as JSON, nothing is to be written and the index stays.
    pub fn save(&self, cache_dir: &str, index: &mut CacheIndex) -> (files: Result<
        Vec<CacheFile>,
        ImageParcingError,
    >)
        ensures
            match files {
                Ok(written) => {
                    &&& written@.len() == 2
                    &&& written@[0].path@ == join_path(cache_dir@, tree_file_name(self.name@))
                    &&& json_text(tree_document(self.tree@, self.tree.source_path())) == Some(
                        written@[0].content@,
                    )
                    &&& written@[1].path@ == join_path(cache_dir@, command_file_name(self.name@))
                    &&& written@[1].content@ == self.command@
                    &&& final(index)@ == old(index)@.push(tree_file_name(self.name@)).push(
                        command_file_name(self.name@),
                    )
                    &&& is_cached(final(index)@, self.name@)
                },
                Err(e) => {
                    &&& e == ImageParcingError::JSONError
                    &&& json_text(tree_document(self.tree@, self.tree.source_path())) is None
                    &&& final(index)@ == old(index)@
                },
            },
    {
        proof {
            reveal_strlit(".json");
            reveal_strlit(".cmd");
            assert(".json"@ =~= seq!['.', 'j', 's', 'o', 'n']);
            assert(".cmd"@ =~= seq!['.', 'c', 'm', 'd']);
        }
        match self.tree.to_json() {
            Err(_) => Err(ImageParcingError::JSONError),
            Ok(text) => {
                let mut written: Vec<CacheFile> = Vec::new();
                written.push(CacheFile { path: self.get_layer_path(cache_dir), content: text });
                written.push(
                    CacheFile {
                        path: self.get_layer_path_cmd(cache_dir),
                        content: self.command.clone(),
                    },
                );
                index.add_file(with_ending(self.name.as_str(), ".json"));
                index.add_file(with_ending(self.name.as_str(), ".cmd"));
                proof {
                    let files = index@;
                    let n = files.len() as int;
                    assert(files[n - 2] == tree_file_name(self.name@));
                    assert(files[n - 1] == command_file_name(self.name@));
                }
                Ok(written)
            },
        }
    }

    /// The layer `layer` as the cache holds it: `tree_text` is what its
    /// tree file holds, `command` what its command file holds.
    pub fn load(layer: &str, tree_text: &str, command: String) -> (loaded: Result<
        ImageLayer,
        ImageParcingError,
    >)
        ensures
            match loaded {
                Ok(l) => {
                    &&& l.name@ == layer@
                    &&& l.command == command
                    &&& json_parsed(tree_text@) matches Some(doc) && tree_in(doc) == Some(
                        (l.tree@, l.tree.source_path()),
                    )
                },
                Err(e) => {
                    &&& e == ImageParcingError::JSONError
                    &&& json_parsed(tree_text@) matches Some(doc) ==> tree_in(doc) is None
                },
            },
    {
        match FileTree::from_json(tree_text) {
            Ok(tree) => Ok(ImageLayer::new(String::from_str(layer), tree, command)),
            Err(_) => Err(ImageParcingError::JSONError),
        }
    }

    /// Splits `layers` into those that the cache holds, which are returned,
    /// and the others, which stay in `layers`. Both keep the order in
    /// which the digests came.
    pub fn filter_cached_layers(index: &CacheIndex, layers: &mut Vec<String>) -> (cached: Vec<
        String,
    >)
        ensures
            texts(cached@) == texts(old(layers)@).filter(|d: Seq<char>| is_cached(index@, d)),
            texts(final(layers)@) == texts(old(layers)@).filter(
                |d: Seq<char>| !is_cached(index@, d),
            ),
    {
        let ghost all = texts(layers@);
        let ghost held = |d: Seq<char>| is_cached(index@, d);
        let ghost missing = |d: Seq<char>| !is_cached(index@, d);
        let mut cached: Vec<String> = Vec::new();
        let mut remaining: Vec<String> = Vec::new();
        let mut i: usize = 0;
        proof {
            reveal(Seq::filter);
            assert(all.take(0).filter(held) =~= Seq::<Seq<char>>::empty());
            assert(all.take(0).filter(missing) =~= Seq::<Seq<char>>::empty());
            assert(texts(cached@) =~= Seq::<Seq<char>>::empty());
            assert(texts(remaining@) =~= Seq::<Seq<char>>::empty());
        }
        while i < layers.len()
            invariant
                i <= layers.len(),
                layers@ == old(layers)@,
                all == texts(layers@),
                held == |d: Seq<char>| is_cached(index@, d),
                missing == |d: Seq<char>| !is_cached(index@, d),
                texts(cached@) == all.take(i as int).filter(held),
                texts(remaining@) == all.take(i as int).filter(missing),
            decreases layers.len() - i,
        {
            proof {
                reveal(Seq::filter);
                assert(all.take(i + 1).drop_last() =~= all.take(i as int));
                assert(all.take(i + 1).last() == layers@[i as int]@);
            }
            let ghost cached_before = texts(cached@);
            let ghost remaining_before = texts(remaining@);
            if ImageLayer::check_cache(index, layers[i].as_str()) {
                cached.push(layers[i].clone());
                assert(texts(cached@) =~= cached_before.push(layers@[i as int]@));
            } else {
                remaining.push(layers[i].clone());
                assert(texts(remaining@) =~= remaining_before.push(layers@[i as int]@));
            }
            i += 1;
        }
        proof {
            assert(all.take(i as int) =~= all);
        }
        *layers = remaining;
        cached
    }
}

/// An empty cache holds no layer; a layer is cached once its two files
/// have been added; and adding them leaves every cached layer cached.
pub proof fn lemma_saved_is_cached(files: Seq<Seq<char>>, digest: Seq<char>)
    ensures
        is_cached(files.push(tree_file_name(digest)).push(command_file_name(digest)), digest),
        !is_cached(Seq::<Seq<char>>::empty(), digest),
        forall|other: Seq<char>|
            is_cached(files, other) ==> is_cached(
                files.push(tree_file_name(digest)).push(command_file_name(digest)),
                other,
            ),
{
    let after = files.push(tree_file_name(digest)).push(command_file_name(digest));
    let n = after.len() as int;
    assert(after[n - 2] == tree_file_name(digest));
    assert(after[n - 1] == command_file_name(digest));
    assert forall|other: Seq<char>| is_cached(files, other) implies is_cached(after, other) by {
        let a = choose|a: int| 0 <= a < files.len() && files[a] == tree_file_name(other);
        let b = choose|b: int| 0 <= b < files.len() && files[b] == command_file_name(other);
        assert(after[a] == tree_file_name(other));
        assert(after[b] == command_file_name(other));
    }
}

/// Whether `c` is white space: one of the characters that Unicode lists
/// as `White_Space`.
pub open spec fn is_space(c: char) -> bool {
    let n = c as int;
    ||| 0x9 <= n <= 0xD
    ||| n == 0x20
    ||| n == 0x85
    ||| n == 0xA0
    ||| n == 0x1680
    ||| 0x2000 <= n <= 0x200A
    ||| n == 0x2028
    ||| n == 0x2029
    ||| n == 0x202F
    ||| n == 0x205F
    ||| n == 0x3000
}

/// How many characters of white space `s` begins with.
pub open spec fn leading_space(s: Seq<char>) -> int
    decreases s.len(),
{
    if s.len() == 0 || !is_space(s[0]) {
        0
    } else {
        1 + leading_space(s.drop_first())
    }
}

/// How many characters of white space `s` ends with.
pub open spec fn trailing_space(s: Seq<char>) -> int
    decreases s.len(),
{
    if s.len() == 0 || !is_space(s.last()) {
        0
    } else {
        1 + trailing_space(s.drop_last())
    }
}

/// `s` without the white space at its two ends.
pub open spec fn trimmed(s: Seq<char>) -> Seq<char> {
    let rest = s.skip(leading_space(s));
    rest.take(rest.len() - trailing_space(rest))
}

/// What stands for the command of a layer whose history names none.
pub open spec fn unknown_command() -> Seq<char> {
    "Unknown command"@
}

/// What stands for the command of a layer that the history does not list.
pub open spec fn no_command() -> Seq<char> {
    "Not available"@
}

/// One step of an image's history: the command that made it, where the
/// history names one, and whether the step made no layer.
#[derive(Debug, PartialEq, Eq)]
pub struct HistoryEntry {
    pub created_by: Option<String>,
    pub empty_layer: Option<bool>,
}

/// One step of an image's history, as mathematical values.
pub struct HistoryModel {
    pub created_by: Option<Seq<char>>,
    pub empty_layer: Option<bool>,
}

impl View for HistoryEntry {
    type V = HistoryModel;

    open spec fn view(&self) -> HistoryModel {
        HistoryModel {
            created_by: match self.created_by {
                Some(s) => Some(s@),
                None => None,
            },
            empty_layer: self.empty_layer,
        }
    }
}

/// The steps of a history, as mathematical values.
pub open spec fn steps_of(history: Seq<HistoryEntry>) -> Seq<HistoryModel> {
    history.map_values(|h: HistoryEntry| h@)
}

/// Whether the step made a layer.
pub open spec fn makes_layer(step: HistoryModel) -> bool {
    step.empty_layer != Some(true)
}

/// The command of a step: what the history names, trimmed.
pub open spec fn command_of(step: HistoryModel) -> Seq<char> {
    match step.created_by {
        Some(text) => trimmed(text),
        None => trimmed(unknown_command()),
    }
}

/// The commands of the steps that made a layer, in the order of the history.
pub open spec fn layer_commands(history: Seq<HistoryModel>) -> Seq<Seq<char>> {
    history.filter(|h: HistoryModel| makes_layer(h)).map_values(|h: HistoryModel| command_of(h))
}

/// The name of an image with its tag: the name itself where it has a
/// tag, and the tag `latest` behind it where it has none.
pub open spec fn tagged(name: Seq<char>) -> Seq<char> {
    if name.contains(':') {
        name
    } else {
        name + ":latest"@
    }
}

/// `name` with `_tagged_` in place of every colon.
pub open spec fn without_colons(name: Seq<char>) -> Seq<char>
    decreases name.len(),
{
    if name.len() == 0 {
        Seq::empty()
    } else if name.last() == ':' {
        without_colons(name.drop_last()) + "_tagged_"@
    } else {
        without_colons(name.drop_last()).push(name.last())
    }
}

/// The directory below the home directory `home` that keeps the files of
/// the image `image` while the image is read.
pub open spec fn img_cache_dir(home: Seq<char>, image: Seq<char>) -> Seq<char> {
    join_path(home, ".cache/freightview/image_cache/"@ + without_colons(image))
}

/// The command of the layer `name`, where `layers` names the layers of an
/// image and `commands` their commands in the same order: the command at
/// the last position where `layers` names the layer and `commands` has a
/// command; `Not available` where there is no such position.
pub open spec fn command_for(
    layers: Seq<Seq<char>>,
    commands: Seq<Seq<char>>,
    name: Seq<char>,
    upto: int,
) -> Seq<char>
    decreases upto,
{
    if upto <= 0 {
        no_command()
    } else if upto <= layers.len() && upto <= commands.len() && layers[upto - 1] == name {
        commands[upto - 1]
    } else {
        command_for(layers, commands, name, upto - 1)
    }
}

/// Whether `c` is white space.
fn is_space_char(c: char) -> (space: bool)
    ensures
        space == is_space(c),
{
    (c >= '\u{9}' && c <= '\u{D}') || c == ' ' || c == '\u{85}' || c == '\u{A0}' || c == '\u{1680}' || (
    c >= '\u{2000}' && c <= '\u{200A}') || c == '\u{2028}' || c == '\u{2029}' || c == '\u{202F}'
        || c == '\u{205F}' || c == '\u{3000}'
}

/// `text` without the white space at its two ends.
pub fn trim(text: &str) -> (out: String)
    ensures
        out@ == trimmed(text@),
{
    let chars = to_chars(text);
    let n = chars.len();
    let mut lo: usize = 0;
    assert(chars@.skip(0) =~= chars@);
    while lo < n && is_space_char(chars[lo])
        invariant
            lo <= n,
            n == chars@.len(),
            leading_space(chars@) == lo + leading_space(chars@.skip(lo as int)),
        decreases n - lo,
    {
        assert(chars@.skip(lo as int).drop_first() =~= chars@.skip(lo + 1));
        lo += 1;
    }
    assert(leading_space(chars@) == lo);
    let ghost rest = chars@.skip(lo as int);
    let mut hi: usize = n;
    assert(rest.take(rest.len() as int) =~= rest);
    while hi > lo && is_space_char(chars[hi - 1])
        invariant
            lo <= hi <= n,
            n == chars@.len(),
            rest == chars@.skip(lo as int),
            trailing_space(rest) == (n - hi) + trailing_space(rest.take(hi - lo)),
        decreases hi,
    {
        assert(rest.take(hi - lo).last() == chars@[hi - 1]);
        assert(rest.take(hi - lo).drop_last() =~= rest.take(hi - lo - 1));
        hi -= 1;
    }
    proof {
        if hi > lo {
            assert(rest.take(hi - lo).last() == chars@[hi - 1]);
        }
        assert(trailing_space(rest) == n - hi);
        assert(rest.take(rest.len() - (n - hi)) =~= text@.subrange(lo as int, hi as int));
    }
    String::from_str(text.substring_char(lo, hi))
}

/// The commands of the steps of `history` that made a layer, in order.
pub fn get_layer_commands(history: &Vec<HistoryEntry>) -> (commands: Vec<String>)
    ensures
        texts(commands@) == layer_commands(steps_of(history@)),
{
    let ghost steps = steps_of(history@);
    let ghost kept = |h: HistoryModel| makes_layer(h);
    let ghost to_command = |h: HistoryModel| command_of(h);
    let mut commands: Vec<String> = Vec::new();
    let mut i: usize = 0;
    proof {
        reveal(Seq::filter);
        assert(steps.take(0).filter(kept) =~= Seq::<HistoryModel>::empty());
        assert(texts(commands@) =~= steps.take(0).filter(kept).map_values(to_command));
    }
    while i < history.len()
        invariant
            i <= history.len(),
            steps == steps_of(history@),
            steps.len() == history@.len(),
            kept == |h: HistoryModel| makes_layer(h),
            to_command == |h: HistoryModel| command_of(h),
            texts(commands@) == steps.take(i as int).filter(kept).map_values(to_command),
        decreases history.len() - i,
    {
        proof {
            reveal(Seq::filter);
            assert(steps.take(i + 1).drop_last() =~= steps.take(i as int));
            assert(steps.take(i + 1).last() == steps[i as int]);
            assert(steps[i as int] == history@[i as int]@);
        }
        let step = &history[i];
        let skip = match step.empty_layer {
            Some(empty) => empty,
            None => false,
        };
        if !skip {
            let ghost before = texts(commands@);
            let command = match &step.created_by {
                Some(text) => trim(text.as_str()),
                None => trim("Unknown command"),
            };
            commands.push(command);
            proof {
                assert(texts(commands@) =~= before.push(command_of(steps[i as int])));
                assert(steps.take(i + 1).filter(kept).map_values(to_command) =~= before.push(
                    command_of(steps[i as int]),
                ));
            }
        }
        i += 1;
    }
    proof {
        assert(steps.take(i as int) =~= steps);
    }
    commands
}

/// The configuration file that an image's manifest names: the manifest
/// must hold the entry of exactly one image.
pub fn get_manifest_config_file(configs: &Vec<String>) -> (config: Result<String, ImageParcingError>)
    ensures
        match config {
            Ok(name) => configs@.len() == 1 && name@ == configs@[0]@,
            Err(e) => configs@.len() != 1 && e == ImageParcingError::LayerParsingError,
        },
{
    if configs.len() != 1 {
        return Err(ImageParcingError::LayerParsingError);
    }
    Ok(configs[0].clone())
}

/// The name of an image with its tag.
pub fn with_tag(name: &str) -> (full: String)
    ensures
        full@ == tagged(name@),
{
    let chars = to_chars(name);
    let mut i: usize = 0;
    while i < chars.len()
        invariant
            i <= chars.len(),
            chars@ == name@,
            forall|j: int| 0 <= j < i ==> chars@[j] != ':',
        decreases chars.len() - i,
    {
        if chars[i] == ':' {
            return String::from_str(name);
        }
        i += 1;
    }
    String::from_str(name).concat(":latest")
}

/// The directory below `home` that keeps the files of the image `image`
/// while the image is read.
pub fn get_img_cache_dir(home: &str, image: &str) -> (dir: String)
    ensures
        dir@ == img_cache_dir(home@, image@),
{
    let chars = to_chars(image);
    let mut name = String::from_str(".cache/freightview/image_cache/");
    let ghost front = name@;
    let mut i: usize = 0;
    assert(chars@.take(0) =~= Seq::<char>::empty());
    assert(name@ =~= front + without_colons(chars@.take(0)));
    while i < chars.len()
        invariant
            i <= chars.len(),
            chars@ == image@,
            front == ".cache/freightview/image_cache/"@,
            name@ == front + without_colons(chars@.take(i as int)),
        decreases chars.len() - i,
    {
        proof {
            assert(chars@.take(i + 1).drop_last() =~= chars@.take(i as int));
            assert(chars@.take(i + 1).last() == chars@[i as int]);
        }
        let ghost before = without_colons(chars@.take(i as int));
        if chars[i] == ':' {
            name.append("_tagged_");
            assert(name@ =~= front + (before + "_tagged_"@));
        } else {
            assert(image@.subrange(i as int, i + 1) =~= seq![chars@[i as int]]);
            name.append(image.substring_char(i, i + 1));
            assert(name@ =~= front + before.push(chars@[i as int]));
        }
        i += 1;
    }
    assert(chars@.take(i as int) =~= chars@);
    join(home, name.as_str())
}

/// The command of the layer `name` among the layers of an image.
pub fn layer_command(layers: &Vec<String>, commands: &Vec<String>, name: &str) -> (command: String)
    ensures
        command@ == command_for(
            texts(layers@),
            texts(commands@),
            name@,
            layers@.len() as int,
        ),
{
    let wanted = to_chars(name);
    let mut i: usize = layers.len();
    while i > 0
        invariant
            i <= layers.len(),
            wanted@ == name@,
            command_for(texts(layers@), texts(commands@), name@, layers@.len() as int)
                == command_for(texts(layers@), texts(commands@), name@, i as int),
        decreases i,
    {
        assert(texts(layers@)[i - 1] == layers@[i - 1]@);
        if i <= commands.len() {
            assert(texts(commands@)[i - 1] == commands@[i - 1]@);
            let here = to_chars(layers[i - 1].as_str());
            if same_chars(&here, &wanted) {
                return commands[i - 1].clone();
            }
        }
        i -= 1;
    }
    String::from_str("Not available")
}

/// The name of the file that holds the layer `digest` in an image's
/// archive: the digest without the seven characters `sha256:` in front.
pub fn layer_blob_name(digest: &str) -> (name: Option<String>)
    ensures
        match name {
            Some(n) => digest@.len() >= 7 && n@ == digest@.skip(7),
            None => digest@.len() < 7,
        },
{
    let n = digest.unicode_len();
    if n < 7 {
        return None;
    }
    assert(digest@.skip(7) =~= digest@.subrange(7, n as int));
    Some(String::from_str(digest.substring_char(7, n)))
}

} // verus!
