//! Paths as sequences of components.

use vstd::prelude::*;
use vstd::string::*;

verus! {

/// The mathematical value of a path: whether it starts at the filesystem
/// root, and its components from the outermost to the innermost.
pub struct PathModel {
    pub absolute: bool,
    pub parts: Seq<Seq<char>>,
}

/// A component name: not empty, free of separators, and not the
/// current-directory marker `.`. The parent marker `..` counts as a name.
pub open spec fn is_name(s: Seq<char>) -> bool {
    &&& s.len() > 0
    &&& !s.contains('/')
    &&& s != seq!['.']
}

/// Appends the segment `cur` to `parts` if it is a name, and drops it
/// otherwise.
pub open spec fn close_segment(parts: Seq<Seq<char>>, cur: Seq<char>) -> Seq<Seq<char>> {
    if is_name(cur) {
        parts.push(cur)
    } else {
        parts
    }
}

/// Reads `text` from left to right, cutting it at every separator. The result
/// is the names closed so far and the segment still open at the end.
pub open spec fn scan(text: Seq<char>) -> (Seq<Seq<char>>, Seq<char>)
    decreases text.len(),
{
    if text.len() == 0 {
        (Seq::empty(), Seq::empty())
    } else {
        let before = scan(text.drop_last());
        if text.last() == '/' {
            (close_segment(before.0, before.1), Seq::empty())
        } else {
            (before.0, before.1.push(text.last()))
        }
    }
}

/// The path that a text denotes: absolute if it begins with a separator;
/// its components are the segments between separators, without the empty
/// ones and without `.`.
pub open spec fn parse_path(text: Seq<char>) -> PathModel {
    PathModel {
        absolute: text.len() > 0 && text[0] == '/',
        parts: close_segment(scan(text).0, scan(text).1),
    }
}

/// The components joined by single separators.
pub open spec fn joined(parts: Seq<Seq<char>>) -> Seq<char>
    decreases parts.len(),
{
    if parts.len() == 0 {
        Seq::empty()
    } else if parts.len() == 1 {
        parts[0]
    } else {
        joined(parts.drop_last()) + seq!['/'] + parts.last()
    }
}

impl PathModel {
    /// Every component is a name.
    pub open spec fn wf(self) -> bool {
        forall|i: int| 0 <= i < self.parts.len() ==> is_name(#[trigger] self.parts[i])
    }

    /// The relative path with the given components.
    pub open spec fn relative(parts: Seq<Seq<char>>) -> PathModel {
        PathModel { absolute: false, parts }
    }

    /// `base` is `self` or one of its ancestors: both are absolute or both
    /// relative, and the components of `base` are the first components of
    /// `self`, compared name by name.
    pub open spec fn starts_with(self, base: PathModel) -> bool {
        &&& self.absolute == base.absolute
        &&& base.parts.is_prefix_of(self.parts)
    }

    /// `self` lies strictly below `base`.
    pub open spec fn is_below(self, base: PathModel) -> bool {
        self.starts_with(base) && self != base
    }

    /// What is left of `self` after its leading `base`, as a relative path;
    /// `None` if `self` does not start with `base`.
    pub open spec fn strip_prefix(self, base: PathModel) -> Option<PathModel> {
        if self.starts_with(base) {
            Some(Self::relative(self.parts.skip(base.parts.len() as int)))
        } else {
            None
        }
    }

    /// `other` seen from `self`: an absolute `other` stands for itself, a
    /// relative one is appended to `self`.
    pub open spec fn join(self, other: PathModel) -> PathModel {
        if other.absolute {
            other
        } else {
            PathModel { absolute: self.absolute, parts: self.parts + other.parts }
        }
    }

    /// The path without its last component; `None` if it has no component.
    pub open spec fn parent(self) -> Option<PathModel> {
        if self.parts.len() > 0 {
            Some(PathModel { absolute: self.absolute, parts: self.parts.drop_last() })
        } else {
            None
        }
    }

    /// The entry called `name` in this directory.
    pub open spec fn child(self, name: Seq<char>) -> PathModel {
        PathModel { absolute: self.absolute, parts: self.parts.push(name) }
    }

    /// The path cut down to its first `depth` components.
    pub open spec fn truncate(self, depth: int) -> PathModel {
        PathModel { absolute: self.absolute, parts: self.parts.take(depth) }
    }

    /// The path itself, then its parent, and so on up to the path without
    /// components.
    pub open spec fn ancestors(self) -> Seq<PathModel> {
        Seq::new(self.parts.len() + 1, |i: int| self.truncate(self.parts.len() - i))
    }

    /// The last component, unless there is none or it is `..`.
    pub open spec fn file_name(self) -> Option<Seq<char>> {
        if self.parts.len() > 0 && self.parts.last() != seq!['.', '.'] {
            Some(self.parts.last())
        } else {
            None
        }
    }

    /// The text of the path: a leading separator if it is absolute, then the
    /// components with separators between them. The relative path without
    /// components is written `.`.
    pub open spec fn render(self) -> Seq<char> {
        if self.absolute {
            seq!['/'] + joined(self.parts)
        } else if self.parts.len() == 0 {
            seq!['.']
        } else {
            joined(self.parts)
        }
    }
}

/// The texts of a list of strings.
pub open spec fn texts(strings: Seq<String>) -> Seq<Seq<char>> {
    strings.map_values(|s: String| s@)
}

/// The values of a list of paths.
pub open spec fn models(paths: Seq<Path>) -> Seq<PathModel> {
    paths.map_values(|p: Path| p@)
}

/// The value of a path that may be missing.
pub open spec fn model_of(path: Option<Path>) -> Option<PathModel> {
    match path {
        Some(p) => Some(p@),
        None => None,
    }
}

/// The text of a string that may be missing.
pub open spec fn text_of(string: Option<String>) -> Option<Seq<char>> {
    match string {
        Some(s) => Some(s@),
        None => None,
    }
}

/// An owned path.
#[derive(Debug)]
pub struct Path {
    absolute: bool,
    parts: Vec<String>,
}

impl View for Path {
    type V = PathModel;

    closed spec fn view(&self) -> PathModel {
        PathModel { absolute: self.absolute, parts: texts(self.parts@) }
    }
}

impl Path {
    #[verifier::type_invariant]
    spec fn inv(&self) -> bool {
        self@.wf()
    }

    /// Parses a path from its text.
    pub fn new(text: &str) -> (r: Path)
        ensures
            r@ == parse_path(text@),
            r@.wf(),
    {
        let n = text.unicode_len();
        let mut parts: Vec<String> = Vec::new();
        let mut start: usize = 0;
        let mut i: usize = 0;
        while i < n
            invariant
                start <= i <= n,
                n == text@.len(),
                scan(text@.take(i as int)) == (
                    texts(parts@),
                    text@.subrange(start as int, i as int),
                ),
                forall|k: int| start <= k < i ==> text@[k] != '/',
                forall|k: int| 0 <= k < parts.len() ==> is_name(#[trigger] parts[k]@),
            decreases n - i,
        {
            let c = text.get_char(i);
            proof {
                assert(text@.take(i + 1).drop_last() == text@.take(i as int));
            }
            if c == '/' {
                if Self::segment_is_name(text, start, i) {
                    parts.push(String::from_str(text.substring_char(start, i)));
                }
                start = i + 1;
            } else {
                assert(text@.subrange(start as int, i + 1) == text@.subrange(
                    start as int,
                    i as int,
                ).push(c));
            }
            i += 1;
        }
        assert(text@.take(n as int) == text@);
        if Self::segment_is_name(text, start, n) {
            let ghost before = texts(parts@);
            parts.push(String::from_str(text.substring_char(start, n)));
            assert(texts(parts@) == before.push(text@.subrange(start as int, n as int)));
        }
        let absolute = n > 0 && text.get_char(0) == '/';
        Path { absolute, parts }
    }

    /// Whether the separator-free segment `text[from..to]` is a name.
    fn segment_is_name(text: &str, from: usize, to: usize) -> (r: bool)
        requires
            from <= to <= text@.len(),
            forall|k: int| from <= k < to ==> text@[k] != '/',
        ensures
            r == is_name(text@.subrange(from as int, to as int)),
    {
        let ghost seg = text@.subrange(from as int, to as int);
        if to == from {
            false
        } else if to - from == 1 {
            let c = text.get_char(from);
            assert(seg[0] == c);
            proof {
                if c == '.' {
                    assert(seg == seq!['.']);
                } else {
                    assert(seq!['.'][0] == '.');
                }
            }
            c != '.'
        } else {
            true
        }
    }
}

/// Whether `a` and `b` hold the same texts in their first `n` places.
fn same_texts(a: &Vec<String>, b: &Vec<String>, n: usize) -> (r: bool)
    requires
        n <= a.len(),
        n <= b.len(),
    ensures
        r == (texts(a@).take(n as int) == texts(b@).take(n as int)),
{
    let mut i: usize = 0;
    while i < n
        invariant
            i <= n,
            n <= a.len(),
            n <= b.len(),
            texts(a@).take(i as int) == texts(b@).take(i as int),
        decreases n - i,
    {
        if a[i] != b[i] {
            assert(texts(a@).take(n as int)[i as int] != texts(b@).take(n as int)[i as int]);
            return false;
        }
        i += 1;
    }
    true
}

/// Appends copies of `from[lo..hi]` to `to`.
fn extend_texts(to: &mut Vec<String>, from: &Vec<String>, lo: usize, hi: usize)
    requires
        lo <= hi <= from.len(),
    ensures
        texts(final(to)@) == texts(old(to)@) + texts(from@).subrange(lo as int, hi as int),
{
    let mut i: usize = lo;
    while i < hi
        invariant
            lo <= i <= hi <= from.len(),
            texts(to@) == texts(old(to)@) + texts(from@).subrange(lo as int, i as int),
        decreases hi - i,
    {
        let ghost before = texts(to@);
        to.push(from[i].clone());
        i += 1;
        assert(texts(to@) == before.push(from[i - 1]@));
    }
}

impl Clone for Path {
    fn clone(&self) -> (r: Path)
        ensures
            r@ == self@,
    {
        proof {
            use_type_invariant(self);
        }
        let mut parts: Vec<String> = Vec::new();
        extend_texts(&mut parts, &self.parts, 0, self.parts.len());
        assert(texts(parts@) == texts(self.parts@));
        Path { absolute: self.absolute, parts }
    }
}

impl PartialEq for Path {
    fn eq(&self, other: &Path) -> (r: bool) {
        let r = self.absolute == other.absolute && self.parts.len() == other.parts.len()
            && same_texts(&self.parts, &other.parts, self.parts.len());
        proof {
            assert(texts(self.parts@).take(self.parts.len() as int) == texts(self.parts@));
            if self.parts.len() == other.parts.len() {
                assert(texts(other.parts@).take(self.parts.len() as int) == texts(other.parts@));
            } else {
                assert(texts(self.parts@).len() != texts(other.parts@).len());
            }
        }
        r
    }
}

impl vstd::std_specs::cmp::PartialEqSpecImpl for Path {
    open spec fn obeys_eq_spec() -> bool {
        true
    }

    open spec fn eq_spec(&self, other: &Path) -> bool {
        self@ == other@
    }
}

impl Eq for Path {

}

impl Path {
    /// Whether the path starts at the filesystem root.
    pub fn is_absolute(&self) -> (r: bool)
        ensures
            r == self@.absolute,
    {
        self.absolute
    }

    /// The number of components.
    pub fn depth(&self) -> (r: usize)
        ensures
            r == self@.parts.len(),
    {
        self.parts.len()
    }

    /// Whether `base` is this path or one of its ancestors.
    pub fn starts_with(&self, base: &Path) -> (r: bool)
        ensures
            r == self@.starts_with(base@),
    {
        if self.absolute != base.absolute || base.parts.len() > self.parts.len() {
            return false;
        }
        let r = same_texts(&base.parts, &self.parts, base.parts.len());
        proof {
            let n = base.parts.len() as int;
            assert(texts(base.parts@).take(n) == texts(base.parts@));
        }
        r
    }

    /// The rest of this path after its leading `base`, as a relative path.
    pub fn strip_prefix(&self, base: &Path) -> (r: Option<Path>)
        ensures
            model_of(r) == self@.strip_prefix(base@),
    {
        if !self.starts_with(base) {
            return None;
        }
        proof {
            use_type_invariant(self);
        }
        let mut parts: Vec<String> = Vec::new();
        extend_texts(&mut parts, &self.parts, base.parts.len(), self.parts.len());
        Some(Path { absolute: false, parts })
    }

    /// `other` seen from this path.
    pub fn join(&self, other: &Path) -> (r: Path)
        ensures
            r@ == self@.join(other@),
    {
        proof {
            use_type_invariant(self);
            use_type_invariant(other);
        }
        if other.absolute {
            return other.clone();
        }
        let mut parts: Vec<String> = Vec::new();
        extend_texts(&mut parts, &self.parts, 0, self.parts.len());
        extend_texts(&mut parts, &other.parts, 0, other.parts.len());
        assert(texts(parts@) == texts(self.parts@) + texts(other.parts@));
        assert forall|k: int| 0 <= k < parts.len() implies is_name(#[trigger] texts(parts@)[k]) by {
            if k < self.parts.len() {
                assert(texts(parts@)[k] == self@.parts[k]);
            } else {
                assert(texts(parts@)[k] == other@.parts[k - self.parts.len()]);
            }
        }
        Path { absolute: self.absolute, parts }
    }

    /// This path cut down to its first `depth` components; the path itself
    /// if it has no more than `depth`.
    pub fn truncate(&self, depth: usize) -> (r: Path)
        ensures
            r@ == if depth <= self@.parts.len() {
                self@.truncate(depth as int)
            } else {
                self@
            },
    {
        proof {
            use_type_invariant(self);
        }
        let n = self.parts.len();
        let upto = if depth <= n {
            depth
        } else {
            n
        };
        let mut parts: Vec<String> = Vec::new();
        extend_texts(&mut parts, &self.parts, 0, upto);
        assert(self@.parts.take(n as int) == self@.parts);
        assert forall|k: int| 0 <= k < parts.len() implies is_name(#[trigger] texts(parts@)[k]) by {
            assert(texts(parts@)[k] == self@.parts[k]);
        }
        Path { absolute: self.absolute, parts }
    }

    /// The path without its last component.
    pub fn parent(&self) -> (r: Option<Path>)
        ensures
            model_of(r) == self@.parent(),
    {
        let n = self.parts.len();
        if n == 0 {
            return None;
        }
        let up = self.truncate(n - 1);
        Some(up)
    }

    /// This path and all its ancestors, the path itself first.
    pub fn ancestors(&self) -> (r: Vec<Path>)
        ensures
            models(r@) == self@.ancestors(),
    {
        let n = self.parts.len();
        let mut out: Vec<Path> = Vec::new();
        let mut depth: usize = n;
        out.push(self.truncate(depth));
        while depth > 0
            invariant
                depth <= n,
                n == self@.parts.len(),
                out.len() == n - depth + 1,
                forall|k: int| 0 <= k < out.len() ==> (#[trigger] out[k])@ == self@.truncate(n - k),
            decreases depth,
        {
            depth -= 1;
            out.push(self.truncate(depth));
        }
        out
    }

    /// The last component, unless there is none or it is `..`.
    pub fn file_name(&self) -> (r: Option<String>)
        ensures
            text_of(r) == self@.file_name(),
    {
        let n = self.parts.len();
        if n == 0 {
            return None;
        }
        let last = &self.parts[n - 1];
        proof {
            reveal_strlit("..");
        }
        if last.as_str().unicode_len() == 2 && last.as_str().get_char(0) == '.'
            && last.as_str().get_char(1) == '.' {
            assert(last@ == seq!['.', '.']);
            None
        } else {
            Some(last.clone())
        }
    }

    /// The text of the path. Read back, it gives the path again.
    pub fn to_string(&self) -> (r: String)
        ensures
            r@ == self@.render(),
            parse_path(r@) == self@,
    {
        let mut out = String::new();
        proof {
            reveal_strlit("/");
            reveal_strlit(".");
            use_type_invariant(self);
            lemma_parse_render(self@);
        }
        if self.absolute {
            out.append("/");
        } else if self.parts.len() == 0 {
            out.append(".");
            return out;
        }
        let ghost lead = out@;
        let n = self.parts.len();
        let mut i: usize = 0;
        while i < n
            invariant
                i <= n,
                n == self.parts.len(),
                "/"@ == seq!['/'],
                out@ == lead + joined(texts(self.parts@).take(i as int)),
            decreases n - i,
        {
            let ghost before = texts(self.parts@).take(i as int);
            let ghost after = texts(self.parts@).take(i + 1);
            assert(after.drop_last() == before);
            if i > 0 {
                out.append("/");
            }
            out.append(self.parts[i].as_str());
            i += 1;
        }
        assert(texts(self.parts@).take(n as int) == texts(self.parts@));
        out
    }

    /// The same components, taken relative: a leading separator is dropped.
    pub fn to_relative(&self) -> (r: Path)
        ensures
            r@ == PathModel::relative(self@.parts),
    {
        proof {
            use_type_invariant(self);
        }
        let mut parts: Vec<String> = Vec::new();
        extend_texts(&mut parts, &self.parts, 0, self.parts.len());
        assert(texts(parts@) == self@.parts);
        Path { absolute: false, parts }
    }

    /// The entry called `name` in this directory.
    pub(crate) fn child(&self, name: &str) -> (r: Path)
        requires
            is_name(name@),
        ensures
            r@ == self@.child(name@),
    {
        proof {
            use_type_invariant(self);
        }
        let mut parts: Vec<String> = Vec::new();
        extend_texts(&mut parts, &self.parts, 0, self.parts.len());
        assert(texts(parts@) == texts(self.parts@));
        parts.push(String::from_str(name));
        assert(texts(parts@) == self@.parts.push(name@));
        assert forall|k: int| 0 <= k < parts.len() implies is_name(#[trigger] texts(parts@)[k]) by {
            if k < self.parts.len() {
                assert(texts(parts@)[k] == self@.parts[k]);
            }
        }
        Path { absolute: self.absolute, parts }
    }
}

/// Whether `text` is a component name.
pub fn is_valid_name(text: &str) -> (r: bool)
    ensures
        r == is_name(text@),
{
    let n = text.unicode_len();
    if n == 0 {
        return false;
    }
    let mut i: usize = 0;
    while i < n
        invariant
            i <= n,
            n == text@.len(),
            forall|k: int| 0 <= k < i ==> text@[k] != '/',
        decreases n - i,
    {
        if text.get_char(i) == '/' {
            return false;
        }
        i += 1;
    }
    assert(text@.subrange(0, n as int) == text@);
    Path::segment_is_name(text, 0, n)
}

/// Text without a separator extends the open segment and closes nothing.
proof fn lemma_scan_plain(text: Seq<char>, plain: Seq<char>)
    requires
        !plain.contains('/'),
    ensures
        scan(text + plain) == (scan(text).0, scan(text).1 + plain),
    decreases plain.len(),
{
    if plain.len() == 0 {
        assert(text + plain == text);
    } else {
        let shorter = plain.drop_last();
        assert(plain.last() != '/') by {
            assert(plain[plain.len() - 1] == plain.last());
        }
        assert forall|c: char| shorter.contains(c) implies plain.contains(c) by {
            let i = choose|i: int| 0 <= i < shorter.len() && shorter[i] == c;
            assert(plain[i] == c);
        }
        lemma_scan_plain(text, shorter);
        assert((text + plain).drop_last() == text + shorter);
    }
}

/// After text that ends a segment, names joined by separators are read back
/// one by one, the last of them left open.
proof fn lemma_scan_joined(text: Seq<char>, parts: Seq<Seq<char>>)
    requires
        scan(text).1.len() == 0,
        parts.len() > 0,
        forall|i: int| 0 <= i < parts.len() ==> is_name(#[trigger] parts[i]),
    ensures
        scan(text + joined(parts)) == (scan(text).0 + parts.drop_last(), parts.last()),
    decreases parts.len(),
{
    if parts.len() == 1 {
        lemma_scan_plain(text, parts[0]);
    } else {
        let init = parts.drop_last();
        assert forall|i: int| 0 <= i < init.len() implies is_name(#[trigger] init[i]) by {
            assert(init[i] == parts[i]);
        }
        lemma_scan_joined(text, init);
        let head = text + joined(init);
        let cut = head + seq!['/'];
        assert(cut.drop_last() == head);
        lemma_scan_plain(cut, parts.last());
        assert(text + joined(parts) == cut + parts.last());
    }
}

/// Joined names begin with the first character of the first name.
proof fn lemma_joined_first(parts: Seq<Seq<char>>)
    requires
        parts.len() > 0,
        parts[0].len() > 0,
    ensures
        joined(parts).len() > 0,
        joined(parts)[0] == parts[0][0],
    decreases parts.len(),
{
    if parts.len() > 1 {
        lemma_joined_first(parts.drop_last());
    }
}

/// Writing a well-formed path out and reading the text back gives the path
/// again.
pub proof fn lemma_parse_render(p: PathModel)
    requires
        p.wf(),
    ensures
        parse_path(p.render()) == p,
{
    let text = p.render();
    let slash = seq!['/'];
    assert(scan(slash) == (Seq::<Seq<char>>::empty(), Seq::<char>::empty())) by {
        reveal_with_fuel(scan, 2);
    }
    if p.parts.len() == 0 {
        if p.absolute {
            assert(text == slash);
        } else {
            let dot = seq!['.'];
            assert(scan(dot) == (Seq::<Seq<char>>::empty(), dot)) by {
                reveal_with_fuel(scan, 2);
            }
        }
        assert(parse_path(text).parts == p.parts);
    } else {
        if p.absolute {
            lemma_scan_joined(slash, p.parts);
        } else {
            let none = Seq::<char>::empty();
            lemma_scan_joined(none, p.parts);
            lemma_joined_first(p.parts);
            assert(p.parts[0][0] != '/') by {
                if p.parts[0][0] == '/' {
                    assert(p.parts[0].contains('/'));
                }
            }
        }
        assert(p.parts.drop_last().push(p.parts.last()) == p.parts);
    }
}

/// The entry called `name` in a directory is the directory joined with the
/// path that the name denotes.
pub proof fn lemma_child_is_join(dir: PathModel, name: Seq<char>)
    requires
        is_name(name),
    ensures
        dir.join(parse_path(name)) == dir.child(name),
{
    let p = PathModel::relative(seq![name]);
    lemma_parse_render(p);
    assert(dir.parts + seq![name] == dir.parts.push(name));
}

} // verus!
