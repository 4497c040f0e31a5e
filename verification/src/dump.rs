//! Dump extensions in serialized form: which files to write, and what to write
//! to them.

use vstd::prelude::*;

use crate::extension_set::ExtensionId;

verus! {

/// The parts of a name, joined by dots.
pub open spec fn dotted(parts: Seq<Seq<char>>) -> Seq<char>
    decreases parts.len(),
{
    if parts.len() == 0 {
        Seq::empty()
    } else if parts.len() == 1 {
        parts[0]
    } else {
        dotted(parts.drop_last()).push('.') + parts.last()
    }
}

/// Whether `parts` are what the dots in `name` separate.
pub open spec fn splits(name: Seq<char>, parts: Seq<Seq<char>>) -> bool {
    &&& parts.len() > 0
    &&& dotted(parts) == name
    &&& forall|i: int| 0 <= i < parts.len() ==> !(#[trigger] parts[i]).contains('.')
}

/// A name can be split in just one way.
pub proof fn law_split_is_determined(name: Seq<char>, a: Seq<Seq<char>>, b: Seq<Seq<char>>)
    requires
        splits(name, a),
        splits(name, b),
    ensures
        a == b,
    decreases a.len(),
{
    lemma_last_dot(a);
    lemma_last_dot(b);
    let x = dotted(a);
    let p = a.last();
    let q = b.last();
    let n = name.len() as int;
    if p.len() < q.len() {
        assert(a.len() > 1);
        assert(name[n - p.len() - 1] == '.');
        assert(q[q.len() - p.len() - 1] == '.');
        assert(q.contains('.'));
    }
    if q.len() < p.len() {
        assert(b.len() > 1);
        assert(name[n - q.len() - 1] == '.');
        assert(p[p.len() - q.len() - 1] == '.');
        assert(p.contains('.'));
    }
    assert(p =~= q) by {
        assert forall|i: int| 0 <= i < p.len() implies p[i] == q[i] by {
            assert(p[i] == name[n - p.len() + i]);
            assert(q[i] == name[n - p.len() + i]);
        }
    }
    if a.len() == 1 && b.len() > 1 {
        assert(n == p.len());
    }
    if b.len() == 1 && a.len() > 1 {
        assert(n == q.len());
    }
    if a.len() > 1 {
        let rest = dotted(a.drop_last());
        let other = dotted(b.drop_last());
        assert(rest =~= other) by {
            assert(rest.len() == n - p.len() - 1);
            assert(other.len() == n - p.len() - 1);
            assert forall|i: int| 0 <= i < rest.len() implies rest[i] == other[i] by {
                assert(rest[i] == name[i]);
                assert(other[i] == name[i]);
            }
        }
        assert(splits(rest, a.drop_last()));
        assert(splits(rest, b.drop_last()));
        law_split_is_determined(rest, a.drop_last(), b.drop_last());
        assert(a =~= a.drop_last().push(p));
        assert(b =~= b.drop_last().push(q));
    } else {
        assert(a =~= seq![p]);
        assert(b =~= seq![q]);
    }
}

/// The last part is the end of the name, with a dot before it if it is not all
/// of it.
proof fn lemma_last_dot(parts: Seq<Seq<char>>)
    requires
        parts.len() > 0,
    ensures
        ({
            let name = dotted(parts);
            let last = parts.last();
            let n = name.len() as int;
            &&& last.len() <= n
            &&& forall|i: int| 0 <= i < last.len() ==> #[trigger] last[i] == name[n - last.len() + i]
            &&& parts.len() == 1 ==> n == last.len()
            &&& parts.len() > 1 ==> {
                &&& n == dotted(parts.drop_last()).len() + 1 + last.len()
                &&& name[n - last.len() - 1] == '.'
                &&& forall|i: int|
                    0 <= i < dotted(parts.drop_last()).len() ==> #[trigger] dotted(
                        parts.drop_last(),
                    )[i] == name[i]
            }
        }),
{
}

/// What the parts of a list of strings hold.
pub open spec fn texts(strings: Seq<String>) -> Seq<Seq<char>> {
    strings.map_values(|s: String| s@)
}

/// Splits a name at its dots.
pub fn split_name(name: &str) -> (parts: Vec<String>)
    ensures
        splits(name@, texts(parts@)),
{
    let n = name.unicode_len();
    let mut parts: Vec<String> = Vec::new();
    let mut start: usize = 0;
    let mut i: usize = 0;
    while i < n
        invariant
            n == name@.len(),
            start <= i <= n,
            forall|k: int| start <= k < i ==> name@[k] != '.',
            parts@.len() == 0 ==> start == 0,
            parts@.len() > 0 ==> start > 0 && name@[start - 1] == '.' && splits(
                name@.take(start - 1),
                texts(parts@),
            ),
        decreases n - i,
    {
        if name.get_char(i) == '.' {
            let ghost before = texts(parts@);
            let part = name.substring_char(start, i);
            parts.push(part.to_owned());
            proof {
                assert(texts(parts@) =~= before.push(part@));
                lemma_next_part(name@, before, start as int, i as int);
            }
            start = i + 1;
        }
        i += 1;
    }
    let ghost before = texts(parts@);
    let part = name.substring_char(start, n);
    parts.push(part.to_owned());
    proof {
        assert(texts(parts@) =~= before.push(part@));
        lemma_next_part(name@, before, start as int, n as int);
        assert(name@.take(n as int) =~= name@);
    }
    parts
}

/// The text from the last dot on is the next part.
proof fn lemma_next_part(name: Seq<char>, parts: Seq<Seq<char>>, start: int, end: int)
    requires
        0 <= start <= end <= name.len(),
        forall|k: int| start <= k < end ==> name[k] != '.',
        parts.len() == 0 ==> start == 0,
        parts.len() > 0 ==> start > 0 && name[start - 1] == '.' && splits(
            name.take(start - 1),
            parts,
        ),
    ensures
        splits(name.take(end), parts.push(name.subrange(start, end))),
{
    let part = name.subrange(start, end);
    let all = parts.push(part);
    assert(all.drop_last() =~= parts);
    if parts.len() == 0 {
        assert(dotted(all) == part);
        assert(part =~= name.take(end));
    } else {
        assert(dotted(all) == dotted(parts).push('.') + part);
        assert(dotted(all) =~= name.take(end));
    }
    assert forall|i: int| 0 <= i < all.len() implies !(#[trigger] all[i]).contains('.') by {
        if i < parts.len() {
            assert(all[i] == parts[i]);
        } else if part.contains('.') {
            let k = choose|k: int| 0 <= k < part.len() && part[k] == '.';
            assert(name[start + k] == '.');
        }
    }
}

/// A file to write.
#[derive(Debug)]
pub struct DumpFile {
    /// The directory of the file: the directories to go through, one by one.
    pub directory: Vec<String>,
    /// The name of the file.
    pub file_name: String,
    /// What to write to the file.
    pub contents: String,
}

/// Whether a name gives a directory path and a file: each part of it is a name
/// in its own right.
pub open spec fn is_qualified_name(name: Seq<char>) -> bool {
    &&& forall|i: int| 0 <= i < name.len() ==> #[trigger] name[i] != '/' && name[i] != '\\'
    &&& forall|parts: Seq<Seq<char>>, i: int|
        splits(name, parts) && 0 <= i < parts.len() ==> (#[trigger] parts[i]).len() > 0
}

/// Dump the standard extensions.
#[derive(Debug)]
#[non_exhaustive]
pub struct ExtArgs {
    /// Output directory
    pub outdir: String,
}

impl ExtArgs {
    /// Dump to directory `outdir`.
    pub fn new(outdir: String) -> (args: ExtArgs)
        ensures
            args.outdir == outdir,
    {
        ExtArgs { outdir }
    }

    /// Whether `file` is where the extension called `name` goes, with `text` for
    /// its serialized form.
    pub open spec fn dumps(self, file: DumpFile, name: Seq<char>, text: Seq<char>) -> bool {
        exists|parts: Seq<Seq<char>>|
            {
                &&& #[trigger] splits(name, parts)
                &&& texts(file.directory@) == seq![self.outdir@] + parts.drop_last()
                &&& file.file_name@ == parts.last() + seq!['.', 'j', 's', 'o', 'n']
                &&& file.contents@ == text.push('\n')
            }
    }

    /// The files to write the extensions of a registry to, in turn; of each
    /// extension, the registry holds its name and its serialized form.
    /// Qualified names of extensions used to generate directories under the specified output directory.
    /// E.g. extension "foo.bar.baz" will be written to "OUTPUT/foo/bar/baz.json".
    pub fn run_dump(&self, registry: &Vec<(ExtensionId, String)>) -> (files: Vec<DumpFile>)
        requires
            forall|i: int|
                0 <= i < registry@.len() ==> is_qualified_name((#[trigger] registry@[i]).0@),
        ensures
            files@.len() == registry@.len(),
            forall|i: int|
                0 <= i < files@.len() ==> self.dumps(
                    #[trigger] files@[i],
                    registry@[i].0@,
                    registry@[i].1@,
                ),
            forall|i: int|
                0 <= i < files@.len() ==> (#[trigger] files@[i]).contents@
                    == registry@[i].1@.push('\n'),
    {
        let mut files: Vec<DumpFile> = Vec::new();
        let mut i: usize = 0;
        while i < registry.len()
            invariant
                i <= registry@.len(),
                files@.len() == i,
                forall|k: int|
                    0 <= k < i ==> self.dumps(
                        #[trigger] files@[k],
                        registry@[k].0@,
                        registry@[k].1@,
                    ),
            decreases registry@.len() - i,
        {
            let entry = &registry[i];
            files.push(self.dump_file(&entry.0, &entry.1));
            i += 1;
        }
        files
    }

    /// The file to write one extension to.
    fn dump_file(&self, name: &ExtensionId, text: &String) -> (file: DumpFile)
        ensures
            self.dumps(file, name@, text@),
    {
        let mut parts = split_name(name.as_str());
        let ghost all = texts(parts@);
        let last = parts.pop();
        let mut file_name = match last {
            Some(part) => part,
            None => String::new(),
        };
        file_name.append(".json");
        let mut directory: Vec<String> = Vec::new();
        directory.push(self.outdir.clone());
        let ghost dirs = texts(parts@);
        directory.append(&mut parts);
        let mut contents = text.clone();
        // write newline, for pre-commit end of file check that edits the file to
        // add newlines if missing.
        contents.append("\n");
        let file = DumpFile { directory, file_name, contents };
        proof {
            reveal_strlit(".json");
            reveal_strlit("\n");
            assert(dirs =~= all.drop_last());
            assert(texts(file.directory@) =~= seq![self.outdir@] + all.drop_last());
            assert(".json"@ =~= seq!['.', 'j', 's', 'o', 'n']);
            assert("\n"@ =~= seq!['\n']);
            assert(file.contents@ =~= text@.push('\n'));
            assert(splits(name@, all));
        }
        file
    }
}

/// Extensions with different names go to different files.
pub proof fn law_files_are_different(
    args: ExtArgs,
    a: DumpFile,
    b: DumpFile,
    name: Seq<char>,
    other: Seq<char>,
    text: Seq<char>,
    other_text: Seq<char>,
)
    requires
        args.dumps(a, name, text),
        args.dumps(b, other, other_text),
        name != other,
    ensures
        texts(a.directory@) != texts(b.directory@) || a.file_name@ != b.file_name@,
{
    let p = choose|p: Seq<Seq<char>>|
        {
            &&& #[trigger] splits(name, p)
            &&& texts(a.directory@) == seq![args.outdir@] + p.drop_last()
            &&& a.file_name@ == p.last() + seq!['.', 'j', 's', 'o', 'n']
            &&& a.contents@ == text.push('\n')
        };
    let q = choose|q: Seq<Seq<char>>|
        {
            &&& #[trigger] splits(other, q)
            &&& texts(b.directory@) == seq![args.outdir@] + q.drop_last()
            &&& b.file_name@ == q.last() + seq!['.', 'j', 's', 'o', 'n']
            &&& b.contents@ == other_text.push('\n')
        };
    if texts(a.directory@) == texts(b.directory@) && a.file_name@ == b.file_name@ {
        let dirs = texts(a.directory@);
        assert(p.drop_last() =~= dirs.skip(1));
        assert(q.drop_last() =~= dirs.skip(1));
        let ext = seq!['.', 'j', 's', 'o', 'n'];
        assert(p.last() =~= a.file_name@.take(a.file_name@.len() - 5));
        assert(q.last() =~= a.file_name@.take(a.file_name@.len() - 5));
        assert(p =~= p.drop_last().push(p.last()));
        assert(q =~= q.drop_last().push(q.last()));
        assert(name == other);
    }
}

/// For a text of any length, what is written for it is all of it and then a
/// newline.
pub proof fn law_contents_are_whole(
    args: ExtArgs,
    file: DumpFile,
    name: Seq<char>,
    text: Seq<char>,
)
    requires
        args.dumps(file, name, text),
    ensures
        file.contents@.len() == text.len() + 1,
        forall|i: int| 0 <= i < text.len() ==> file.contents@[i] == #[trigger] text[i],
        file.contents@[text.len() as int] == '\n',
{
}

/// Different texts give different contents.
pub proof fn law_contents_are_different(
    args: ExtArgs,
    a: DumpFile,
    b: DumpFile,
    name: Seq<char>,
    other: Seq<char>,
    text: Seq<char>,
    other_text: Seq<char>,
)
    requires
        args.dumps(a, name, text),
        args.dumps(b, other, other_text),
        text != other_text,
    ensures
        a.contents@ != b.contents@,
{
    law_contents_are_whole(args, a, name, text);
    law_contents_are_whole(args, b, other, other_text);
    if a.contents@ == b.contents@ {
        assert(text.len() == other_text.len());
        assert forall|i: int| 0 <= i < text.len() implies text[i] == other_text[i] by {
            assert(a.contents@[i] == text[i]);
            assert(b.contents@[i] == other_text[i]);
        }
        assert(text =~= other_text);
    }
}

/// What is written, and where to, depends on nothing but the directory, the name
/// and the text.
pub proof fn law_file_is_determined(
    args: ExtArgs,
    a: DumpFile,
    b: DumpFile,
    name: Seq<char>,
    text: Seq<char>,
)
    requires
        args.dumps(a, name, text),
        args.dumps(b, name, text),
    ensures
        texts(a.directory@) == texts(b.directory@),
        a.file_name@ == b.file_name@,
        a.contents@ == b.contents@,
{
    let p = choose|p: Seq<Seq<char>>|
        {
            &&& #[trigger] splits(name, p)
            &&& texts(a.directory@) == seq![args.outdir@] + p.drop_last()
            &&& a.file_name@ == p.last() + seq!['.', 'j', 's', 'o', 'n']
        };
    let q = choose|q: Seq<Seq<char>>|
        {
            &&& #[trigger] splits(name, q)
            &&& texts(b.directory@) == seq![args.outdir@] + q.drop_last()
            &&& b.file_name@ == q.last() + seq!['.', 'j', 's', 'o', 'n']
        };
    law_split_is_determined(name, p, q);
    law_contents_are_whole(args, a, name, text);
    law_contents_are_whole(args, b, name, text);
    assert(a.contents@ =~= b.contents@) by {
        assert forall|i: int| 0 <= i < a.contents@.len() implies a.contents@[i]
            == b.contents@[i] by {
            if i < text.len() {
                assert(a.contents@[i] == text[i]);
            }
        }
    }
}

/// How many dots there are in a text.
pub open spec fn dot_count(text: Seq<char>) -> nat
    decreases text.len(),
{
    if text.len() == 0 {
        0
    } else if text.last() == '.' {
        dot_count(text.drop_last()) + 1
    } else {
        dot_count(text.drop_last())
    }
}

/// Whether what is after place `i` and before place `j` of a text is a piece of it
/// between two dots, or between a dot and an end of the text.
pub open spec fn is_piece(text: Seq<char>, i: int, j: int) -> bool {
    &&& -1 <= i < j <= text.len()
    &&& i == -1 || text[i] == '.'
    &&& j == text.len() || text[j] == '.'
    &&& forall|k: int| i < k < j ==> text[k] != '.'
}

/// Text without dots adds nothing to their number.
proof fn lemma_no_dots(a: Seq<char>, b: Seq<char>)
    requires
        !b.contains('.'),
    ensures
        dot_count(a + b) == dot_count(a),
    decreases b.len(),
{
    if b.len() == 0 {
        assert(a + b =~= a);
    } else {
        let rest = b.drop_last();
        assert((a + b).drop_last() =~= a + rest);
        assert(b[b.len() - 1] == b.last());
        assert(b.contains(b.last()));
        assert(!rest.contains('.')) by {
            if rest.contains('.') {
                let k = choose|k: int| 0 <= k < rest.len() && rest[k] == '.';
                assert(b[k] == '.');
            }
        }
        lemma_no_dots(a, rest);
    }
}

/// There is one dot less than there are parts.
proof fn lemma_dots_between_parts(parts: Seq<Seq<char>>)
    requires
        parts.len() > 0,
        forall|i: int| 0 <= i < parts.len() ==> !(#[trigger] parts[i]).contains('.'),
    ensures
        dot_count(dotted(parts)) + 1 == parts.len(),
    decreases parts.len(),
{
    let last = parts.last();
    assert(!parts[parts.len() - 1].contains('.'));
    if parts.len() == 1 {
        lemma_no_dots(Seq::empty(), last);
        assert(Seq::<char>::empty() + last =~= last);
    } else {
        let rest = parts.drop_last();
        assert forall|i: int| 0 <= i < rest.len() implies !(#[trigger] rest[i]).contains('.') by {
            assert(rest[i] == parts[i]);
        }
        lemma_dots_between_parts(rest);
        let front = dotted(rest).push('.');
        assert(front.drop_last() =~= dotted(rest));
        assert(dot_count(front) == dot_count(dotted(rest)) + 1);
        lemma_no_dots(front, last);
    }
}

/// A piece of a name is the part that has as many parts before it as there are
/// dots before the piece.
pub proof fn law_pieces_are_parts(name: Seq<char>, parts: Seq<Seq<char>>, i: int, j: int)
    requires
        splits(name, parts),
        is_piece(name, i, j),
    ensures
        dot_count(name.take(i + 1)) < parts.len(),
        parts[dot_count(name.take(i + 1)) as int] == name.subrange(i + 1, j),
        j == name.len() <==> dot_count(name.take(i + 1)) + 1 == parts.len(),
        parts.len() == dot_count(name) + 1,
    decreases parts.len(),
{
    let last = parts.last();
    assert(!parts[parts.len() - 1].contains('.'));
    lemma_dots_between_parts(parts);
    if parts.len() == 1 {
        if i >= 0 {
            assert(last[i] == '.');
            assert(last.contains('.'));
        }
        if j < name.len() {
            assert(last[j] == '.');
            assert(last.contains('.'));
        }
        assert(name.take(0) =~= Seq::<char>::empty());
        assert(name.subrange(0, j) =~= last);
    } else {
        let rest = parts.drop_last();
        let front = dotted(rest);
        let d = front.len() as int;
        lemma_last_dot(parts);
        assert(name[d] == '.');
        assert forall|k: int| 0 <= k < rest.len() implies !(#[trigger] rest[k]).contains('.') by {
            assert(rest[k] == parts[k]);
        }
        assert forall|k: int| d < k < name.len() implies name[k] != '.' by {
            if name[k] == '.' {
                assert(last[k - d - 1] == '.');
                assert(last.contains('.'));
            }
        }
        lemma_dots_between_parts(rest);
        if i < d {
            assert(j <= d);
            assert forall|k: int| 0 <= k < d implies front[k] == #[trigger] name[k] by {}
            assert(is_piece(front, i, j));
            assert(splits(front, rest));
            law_pieces_are_parts(front, rest, i, j);
            assert(front.take(i + 1) =~= name.take(i + 1));
            assert(front.subrange(i + 1, j) =~= name.subrange(i + 1, j));
        } else {
            assert(i == d);
            assert(j == name.len());
            assert(name.take(d + 1) =~= front.push('.'));
            assert(front.push('.').drop_last() =~= front);
            assert(name.subrange(d + 1, j) =~= last);
        }
    }
}

/// An extension goes below the output directory, as the dots in its name say: each
/// piece that a dot ends is a directory, with as many others between it and the
/// output directory as there are dots before it, and the last piece, with
/// ".json" behind it, is the file.
pub proof fn law_pieces_are_places(
    args: ExtArgs,
    file: DumpFile,
    name: Seq<char>,
    text: Seq<char>,
    i: int,
    j: int,
)
    requires
        args.dumps(file, name, text),
        is_piece(name, i, j),
    ensures
        file.directory@.len() == dot_count(name) + 1,
        file.directory@[0]@ == args.outdir@,
        j < name.len() ==> file.directory@[dot_count(name.take(i + 1)) as int
            + 1]@ == name.subrange(i + 1, j),
        j == name.len() ==> {
            &&& file.file_name@.len() == name.len() - (i + 1) + 5
            &&& file.file_name@.take(name.len() - (i + 1)) == name.subrange(i + 1, j)
            &&& file.file_name@.skip(name.len() - (i + 1)) == seq!['.', 'j', 's', 'o', 'n']
        },
{
    let parts = choose|parts: Seq<Seq<char>>|
        {
            &&& #[trigger] splits(name, parts)
            &&& texts(file.directory@) == seq![args.outdir@] + parts.drop_last()
            &&& file.file_name@ == parts.last() + seq!['.', 'j', 's', 'o', 'n']
        };
    let dirs = texts(file.directory@);
    lemma_dots_between_parts(parts);
    law_pieces_are_parts(name, parts, i, j);
    assert(dirs.len() == file.directory@.len());
    assert(dirs[0] == file.directory@[0]@);
    let k = dot_count(name.take(i + 1)) as int;
    if j < name.len() {
        assert(dirs[k + 1] == parts.drop_last()[k]);
        assert(dirs[k + 1] == file.directory@[k + 1]@);
    } else {
        let piece = name.subrange(i + 1, j);
        assert(piece == parts.last());
        assert(file.file_name@.take(piece.len() as int) =~= piece);
        assert(file.file_name@.skip(piece.len() as int) =~= seq!['.', 'j', 's', 'o', 'n']);
    }
}

/// Where a part is empty, the name is empty, or there is a dot at an end of it or
/// right after another.
proof fn lemma_empty_part(name: Seq<char>, parts: Seq<Seq<char>>, k: int)
    requires
        parts.len() > 0,
        dotted(parts) == name,
        0 <= k < parts.len(),
        parts[k].len() == 0,
    ensures
        name.len() == 0 || name[0] == '.' || name.last() == '.' || exists|i: int|
            0 <= i < name.len() - 1 && #[trigger] name[i] == '.' && name[i + 1] == '.',
    decreases parts.len(),
{
    if parts.len() > 1 {
        let rest = parts.drop_last();
        let front = dotted(rest);
        let d = front.len() as int;
        lemma_last_dot(parts);
        assert(name[d] == '.');
        if k == parts.len() - 1 {
            assert(name.last() == name[d]);
        } else {
            assert(rest[k] == parts[k]);
            lemma_empty_part(front, rest, k);
            assert forall|x: int| 0 <= x < d implies front[x] == #[trigger] name[x] by {}
            if front.len() == 0 {
                assert(name[0] == '.');
            } else if front.last() == '.' {
                assert(name[d - 1] == '.' && name[d - 1 + 1] == '.');
            } else if front[0] != '.' {
                let i = choose|i: int|
                    0 <= i < front.len() - 1 && #[trigger] front[i] == '.' && front[i + 1] == '.';
                assert(name[i] == '.' && name[i + 1] == '.');
            }
        }
    }
}

/// A name without slashes in which no dot is at an end or right after another can
/// be dumped.
pub proof fn law_plain_names_are_qualified(name: Seq<char>)
    requires
        name.len() > 0,
        forall|i: int| 0 <= i < name.len() ==> #[trigger] name[i] != '/' && name[i] != '\\',
        name[0] != '.',
        name.last() != '.',
        forall|i: int|
            0 <= i < name.len() - 1 ==> !(#[trigger] name[i] == '.' && name[i + 1] == '.'),
    ensures
        is_qualified_name(name),
{
    assert forall|parts: Seq<Seq<char>>, i: int|
        splits(name, parts) && 0 <= i < parts.len() implies (#[trigger] parts[i]).len() > 0 by {
        if parts[i].len() == 0 {
            lemma_empty_part(name, parts, i);
        }
    }
}

} // verus!
