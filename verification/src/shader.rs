//! The grammar of shader sources, read byte by byte: the `#pragma once` at
//! the head of a file and the `#include` directives in it.

use vstd::prelude::*;

verus! {

/// An `#include` directive: the path between its quotes, and the bytes of the
/// source that the directive takes up.
#[derive(Clone, Debug, PartialEq, Eq)]
pub struct ShaderInclude {
    /// The path of the included file.
    pub path: Vec<u8>,
    /// Where the directive begins in the source.
    pub start: usize,
    /// Where the directive ends in the source.
    pub end: usize,
}

/// What can go wrong when shader sources are put together.
#[derive(Clone, Debug, PartialEq, Eq)]
pub enum ShaderError {
    /// The file at this path has not been opened.
    FileNotFound(Vec<u8>),
    /// An `#include` is not followed by a path in quotes that ends inside
    /// the source.
    ExpectedPathAfterIncludeDirective,
    /// Files include each other without end: the paths of the files that
    /// were being put together, each inside the one before it, when the
    /// chain had grown longer than any chain without a cycle can be.
    IncludeCycle(Vec<Vec<u8>>),
}

/// What can go wrong when shader sources are put together, as a value of
/// contracts.
pub enum ShaderFault {
    FileNotFound(Seq<u8>),
    ExpectedPathAfterIncludeDirective,
    IncludeCycle(Seq<Seq<u8>>),
}

impl View for ShaderError {
    type V = ShaderFault;

    open spec fn view(&self) -> ShaderFault {
        match *self {
            ShaderError::FileNotFound(path) => ShaderFault::FileNotFound(path@),
            ShaderError::ExpectedPathAfterIncludeDirective => ShaderFault::ExpectedPathAfterIncludeDirective,
            ShaderError::IncludeCycle(chain) => ShaderFault::IncludeCycle(spec_paths(chain@)),
        }
    }
}

/// How deep `n` files can include each other when no file is put together
/// inside itself twice with the same files marked `#pragma once` already
/// included: a chain has each file at most once for each number of such
/// files, and that number has at most `n + 1` values. A deeper chain repeats
/// itself without end.
pub open spec fn spec_depth_bound(n: nat) -> nat {
    n * (n + 1) + 1
}

/// The bytes of `#pragma once`.
pub open spec fn spec_pragma_once() -> Seq<u8> {
    seq![35u8, 112u8, 114u8, 97u8, 103u8, 109u8, 97u8, 32u8, 111u8, 110u8, 99u8, 101u8]
}

/// The bytes of `#include`.
pub open spec fn spec_include() -> Seq<u8> {
    seq![35u8, 105u8, 110u8, 99u8, 108u8, 117u8, 100u8, 101u8]
}

/// The byte of a double quote.
pub open spec fn spec_quote() -> Seq<u8> {
    seq![34u8]
}

/// The pattern stands in the source at `at`.
pub open spec fn matches_at(source: Seq<u8>, pattern: Seq<u8>, at: int) -> bool {
    0 <= at && at + pattern.len() <= source.len() && source.subrange(at, at + pattern.len())
        == pattern
}

/// The first place from `from` on where the pattern stands in the source,
/// or -1 if there is none.
pub open spec fn spec_find(source: Seq<u8>, pattern: Seq<u8>, from: int) -> int
    decreases source.len() - from,
{
    if from < 0 || from >= source.len() || from + pattern.len() > source.len() {
        -1
    } else if matches_at(source, pattern, from) {
        from
    } else {
        spec_find(source, pattern, from + 1)
    }
}

/// The directive that begins at `start`, if the source goes on with a path
/// in quotes: its path lies between the next two quotes, and it ends three
/// bytes behind `#include` and as many bytes as the path is long.
pub open spec fn spec_directive(source: Seq<u8>, start: int) -> Option<(Seq<u8>, int)> {
    let after = start + spec_include().len();
    let open = spec_find(source, spec_quote(), after);
    let close = spec_find(source, spec_quote(), open + 1);
    if open < 0 || close < 0 || after + (close - open - 1) + 3 > source.len() {
        None
    } else {
        Some((source.subrange(open + 1, close), after + (close - open - 1) + 3))
    }
}

/// The directives of the source from `from` on, in order, or the error of
/// the first that is malformed.
pub open spec fn spec_directives(source: Seq<u8>, from: int) -> Result<
    Seq<(Seq<u8>, int, int)>,
    ShaderFault,
>
    decreases source.len() - from,
{
    let start = spec_find(source, spec_include(), from);
    if start < 0 {
        Ok(Seq::empty())
    } else {
        match spec_directive(source, start) {
            None => Err(ShaderFault::ExpectedPathAfterIncludeDirective),
            Some((path, end)) => if end <= from {
                Ok(Seq::empty())
            } else {
                match spec_directives(source, end) {
                    Err(e) => Err(e),
                    Ok(rest) => Ok(seq![(path, start, end)] + rest),
                }
            },
        }
    }
}

/// Every directive of the list begins before it ends and ends inside a
/// source of `len` bytes, and each ends before the next begins.
pub open spec fn ranges_ok(includes: Seq<ShaderInclude>, len: int) -> bool {
    &&& forall|i: int|
        0 <= i < includes.len() ==> (#[trigger] includes[i]).start <= includes[i].end <= len
    &&& forall|i: int, j: int|
        0 <= i < j < includes.len() ==> (#[trigger] includes[i]).end <= (#[trigger] includes[j]).start
}

/// What the list of directives says: path, start and end of each.
pub open spec fn spec_listed(includes: Seq<ShaderInclude>) -> Seq<(Seq<u8>, int, int)> {
    Seq::new(includes.len(), |i: int| (includes[i].path@, includes[i].start as int, includes[i].end as int))
}

/// Whether the pattern stands in the source at `at`.
fn stands_at(source: &[u8], pattern: &[u8], at: usize) -> (yes: bool)
    requires
        at + pattern@.len() <= source@.len(),
    ensures
        yes == matches_at(source@, pattern@, at as int),
{
    let size = source.len();
    let mut i: usize = 0;
    while i < pattern.len()
        invariant
            0 <= i <= pattern@.len(),
            size == source@.len(),
            at + pattern@.len() <= source@.len(),
            forall|j: int| 0 <= j < i ==> source@[at + j] == pattern@[j],
        decreases pattern.len() - i,
    {
        if source[at + i] != pattern[i] {
            proof {
                let part = source@.subrange(at as int, at + pattern@.len());
                assert(part[i as int] != pattern@[i as int]);
            }
            return false;
        }
        i += 1;
    }
    proof {
        assert(source@.subrange(at as int, at + pattern@.len()) =~= pattern@);
    }
    true
}

/// The first place from `from` on where the pattern stands in the source.
pub fn find(source: &[u8], pattern: &[u8], from: usize) -> (found: Option<usize>)
    ensures
        match found {
            Some(at) => at == spec_find(source@, pattern@, from as int) && from <= at && at
                + pattern@.len() <= source@.len(),
            None => spec_find(source@, pattern@, from as int) == -1,
        },
{
    let size = source.len();
    if pattern.len() > size || from >= size || from > size - pattern.len() {
        return None;
    }
    let last = size - pattern.len();
    let mut at = from;
    while at <= last && at < size
        invariant
            from <= at <= last + 1,
            size == source@.len(),
            last == source@.len() - pattern@.len(),
            spec_find(source@, pattern@, from as int) == spec_find(source@, pattern@, at as int),
        decreases size - at,
    {
        if stands_at(source, pattern, at) {
            return Some(at);
        }
        at += 1;
    }
    None
}

/// The bytes of `#pragma once`.
fn pragma_once() -> (pattern: Vec<u8>)
    ensures
        pattern@ == spec_pragma_once(),
{
    let pattern = vec![35u8, 112u8, 114u8, 97u8, 103u8, 109u8, 97u8, 32u8, 111u8, 110u8, 99u8, 101u8];
    assert(pattern@ =~= spec_pragma_once());
    pattern
}

/// The bytes of `#include`.
fn directive_word() -> (pattern: Vec<u8>)
    ensures
        pattern@ == spec_include(),
{
    let pattern = vec![35u8, 105u8, 110u8, 99u8, 108u8, 117u8, 100u8, 101u8];
    assert(pattern@ =~= spec_include());
    pattern
}

/// The byte of a double quote.
fn quote() -> (pattern: Vec<u8>)
    ensures
        pattern@ == spec_quote(),
{
    let pattern = vec![34u8];
    assert(pattern@ =~= spec_quote());
    pattern
}

/// The bytes of the source from `from` up to `to`.
fn slice(source: &[u8], from: usize, to: usize) -> (part: Vec<u8>)
    requires
        from <= to <= source@.len(),
    ensures
        part@ == source@.subrange(from as int, to as int),
{
    let mut part: Vec<u8> = Vec::new();
    let mut i = from;
    while i < to
        invariant
            from <= i <= to <= source@.len(),
            part@ == source@.subrange(from as int, i as int),
        decreases to - i,
    {
        part.push(source[i]);
        proof {
            assert(part@ =~= source@.subrange(from as int, i + 1));
        }
        i += 1;
    }
    part
}

/// The source without a `#pragma once` at its head.
pub open spec fn spec_stripped(source: Seq<u8>) -> Seq<u8> {
    if matches_at(source, spec_pragma_once(), 0) {
        source.skip(spec_pragma_once().len() as int)
    } else {
        source
    }
}

/// Takes a `#pragma once` off the head of the source, and says whether
/// there was one.
pub fn strip_pragma_once(source: Vec<u8>) -> (stripped: (Vec<u8>, bool))
    ensures
        stripped.1 == matches_at(source@, spec_pragma_once(), 0),
        stripped.0@ == spec_stripped(source@),
{
    let pattern = pragma_once();
    if pattern.len() <= source.len() && stands_at(source.as_slice(), pattern.as_slice(), 0) {
        let rest = slice(source.as_slice(), pattern.len(), source.len());
        proof {
            assert(source@.subrange(pattern@.len() as int, source@.len() as int) =~= source@.skip(
                pattern@.len() as int,
            ));
        }
        (rest, true)
    } else {
        (source, false)
    }
}

/// Finds the `#include` directives of the source, in order. Each is followed
/// by a path between double quotes; the directive is taken to end three bytes
/// behind the word and the path, which is right where one byte stands between
/// the word and the opening quote.
pub fn find_include_directives(source: &[u8]) -> (found: Result<Vec<ShaderInclude>, ShaderError>)
    ensures
        match found {
            Ok(includes) => spec_directives(source@, 0) == Ok::<Seq<(Seq<u8>, int, int)>, ShaderFault>(
                spec_listed(includes@),
            ) && ranges_ok(includes@, source@.len() as int),
            Err(e) => spec_directives(source@, 0) == Err::<Seq<(Seq<u8>, int, int)>, ShaderFault>(e@),
        },
{
    let word = directive_word();
    let mark = quote();
    let mut includes: Vec<ShaderInclude> = Vec::new();
    let mut offset: usize = 0;
    let ghost mut before: Seq<(Seq<u8>, int, int)> = Seq::empty();
    loop
        invariant
            0 <= offset <= source@.len(),
            word@ == spec_include(),
            mark@ == spec_quote(),
            before == spec_listed(includes@),
            ranges_ok(includes@, source@.len() as int),
            forall|i: int| 0 <= i < includes@.len() ==> (#[trigger] includes@[i]).end <= offset,
            spec_directives(source@, 0) == match spec_directives(source@, offset as int) {
                Ok(rest) => Ok::<Seq<(Seq<u8>, int, int)>, ShaderFault>(before + rest),
                Err(e) => Err(e),
            },
        decreases source@.len() - offset,
    {
        let start = match find(source, word.as_slice(), offset) {
            Some(start) => start,
            None => {
                proof {
                    assert(before + Seq::<(Seq<u8>, int, int)>::empty() =~= before);
                }
                return Ok(includes);
            },
        };
        let size = source.len();
        let after = start + word.len();
        let open = match find(source, mark.as_slice(), after) {
            Some(open) => open,
            None => {
                return Err(ShaderError::ExpectedPathAfterIncludeDirective);
            },
        };
        let close = match find(source, mark.as_slice(), open + 1) {
            Some(close) => close,
            None => {
                return Err(ShaderError::ExpectedPathAfterIncludeDirective);
            },
        };
        let length = close - open - 1;
        if length > source.len() - after || source.len() - after - length < 3 {
            return Err(ShaderError::ExpectedPathAfterIncludeDirective);
        }
        let end = after + length + 3;
        let path = slice(source, open + 1, close);
        let ghost entry = (path@, start as int, end as int);
        includes.push(ShaderInclude { path, start, end });
        proof {
            let rest = spec_directives(source@, end as int);
            assert(spec_listed(includes@) =~= before.push(entry));
            match rest {
                Ok(more) => {
                    assert(before + (seq![entry] + more) =~= before.push(entry) + more);
                },
                Err(_) => {},
            }
            before = before.push(entry);
        }
        offset = end;
    }
}

/// A shader source that was opened: its text without a leading
/// `#pragma once`, and the directives found in it. After opening, the path
/// of each directive is to be made the path of the file it includes.
#[derive(Clone, Debug)]
pub struct ShaderFile {
    pub pragma_once: bool,
    pub source: Vec<u8>,
    pub path: Vec<u8>,
    pub includes: Vec<ShaderInclude>,
}

/// The shader sources that were opened, each under its path.
#[derive(Clone, Debug)]
pub struct ShaderProcessor {
    pub files: Vec<ShaderFile>,
}

/// The source with the bytes from `start` up to `end` replaced.
pub open spec fn spec_splice(source: Seq<u8>, start: int, end: int, with: Seq<u8>) -> Seq<u8> {
    source.take(start) + with + source.skip(end)
}

/// The first file from `from` on that was opened under the path, or -1.
pub open spec fn spec_lookup(files: Seq<ShaderFile>, path: Seq<u8>, from: int) -> int
    decreases files.len() - from,
{
    if from < 0 || from >= files.len() {
        -1
    } else if files[from].path@ == path {
        from
    } else {
        spec_lookup(files, path, from + 1)
    }
}

/// The paths of a list.
pub open spec fn spec_paths(list: Seq<Vec<u8>>) -> Seq<Seq<u8>> {
    Seq::new(list.len(), |i: int| list[i]@)
}

/// The text of the file `shader` with its first `upto` directives resolved,
/// from the last of them to the first, and the paths that were included on
/// the way. A directive for a file that was included before and is marked
/// `#pragma once` is taken out; any other is replaced by the text of its
/// file, resolved in the same way, one level further down. `chain` holds the
/// paths of the files that are being resolved, each inside the one before
/// it; `fuel` is the number of levels that may still be gone down.
pub open spec fn spec_expand(
    files: Seq<ShaderFile>,
    shader: int,
    upto: int,
    source: Seq<u8>,
    included: Seq<Seq<u8>>,
    chain: Seq<Seq<u8>>,
    fuel: nat,
) -> (Result<Seq<u8>, ShaderFault>, Seq<Seq<u8>>)
    decreases fuel, upto,
{
    if upto <= 0 || upto > files[shader].includes@.len() {
        (Ok(source), included)
    } else {
        let directive = files[shader].includes@[upto - 1];
        let target = spec_lookup(files, directive.path@, 0);
        if target < 0 {
            (Err(ShaderFault::FileNotFound(directive.path@)), included)
        } else if included.contains(directive.path@) && files[target].pragma_once {
            spec_expand(
                files,
                shader,
                upto - 1,
                spec_splice(source, directive.start as int, directive.end as int, Seq::empty()),
                included,
                chain,
                fuel,
            )
        } else if fuel == 0 {
            (
                Err(ShaderFault::IncludeCycle(chain.push(directive.path@))),
                included.push(directive.path@),
            )
        } else {
            let inner = spec_expand(
                files,
                target,
                files[target].includes@.len() as int,
                files[target].source@,
                included.push(directive.path@),
                chain.push(directive.path@),
                (fuel - 1) as nat,
            );
            match inner.0 {
                Err(e) => (Err(e), inner.1),
                Ok(text) => spec_expand(
                    files,
                    shader,
                    upto - 1,
                    spec_splice(source, directive.start as int, directive.end as int, text),
                    inner.1,
                    chain,
                    fuel,
                ),
            }
        }
    }
}

/// The text of the shader at `path` with all its directives resolved.
pub open spec fn spec_process(files: Seq<ShaderFile>, path: Seq<u8>) -> Result<Seq<u8>, ShaderFault> {
    let shader = spec_lookup(files, path, 0);
    if shader < 0 {
        Err(ShaderFault::FileNotFound(path))
    } else {
        spec_expand(
            files,
            shader,
            files[shader].includes@.len() as int,
            files[shader].source@,
            seq![path],
            seq![path],
            spec_depth_bound(files.len()),
        ).0
    }
}

/// A path that is looked up and found is the path of the file found.
pub proof fn lemma_lookup(files: Seq<ShaderFile>, path: Seq<u8>, from: int)
    requires
        0 <= from,
    ensures
        spec_lookup(files, path, from) < files.len(),
        spec_lookup(files, path, from) >= 0 ==> files[spec_lookup(files, path, from)].path@ == path,
    decreases files.len() - from,
{
    if from < files.len() && files[from].path@ != path {
        lemma_lookup(files, path, from + 1);
    }
}

/// Every path of the chain is the path of an opened file.
pub open spec fn chain_ok(files: Seq<ShaderFile>, chain: Seq<Seq<u8>>) -> bool {
    forall|k: int| 0 <= k < chain.len() ==> spec_lookup(files, #[trigger] chain[k], 0) >= 0
}

/// A chain of opened files that is longer than there are files holds a path
/// twice.
pub proof fn lemma_chain_repeats(files: Seq<ShaderFile>, chain: Seq<Seq<u8>>)
    requires
        chain_ok(files, chain),
        chain.len() > files.len(),
    ensures
        exists|a: int, b: int| 0 <= a < b < chain.len() && chain[a] == chain[b],
{
    let ids = Seq::new(chain.len(), |k: int| spec_lookup(files, chain[k], 0));
    if ids.no_duplicates() {
        ids.unique_seq_to_set();
        vstd::set_lib::lemma_int_range(0, files.len() as int);
        let all = vstd::set_lib::set_int_range(0, files.len() as int);
        assert(ids.to_set().subset_of(all)) by {
            assert forall|x: int| ids.to_set().contains(x) implies all.contains(x) by {
                let k = choose|k: int| 0 <= k < ids.len() && ids[k] == x;
                lemma_lookup(files, chain[k], 0);
            }
        }
        vstd::set_lib::lemma_len_subset(ids.to_set(), all);
        assert(false);
    }
    let a = choose|a: int, b: int| 0 <= a < ids.len() && 0 <= b < ids.len() && a != b && ids[a] == ids[b];
    let (x, y) = a;
    lemma_lookup(files, chain[x], 0);
    lemma_lookup(files, chain[y], 0);
    if x < y {
        assert(0 <= x < y < chain.len() && chain[x] == chain[y]);
    } else {
        assert(0 <= y < x < chain.len() && chain[y] == chain[x]);
    }
}

/// The chain that comes with a cycle error holds a path twice: the error
/// comes only for files that include each other in a cycle.
pub proof fn lemma_cycle_repeats(
    files: Seq<ShaderFile>,
    shader: int,
    upto: int,
    source: Seq<u8>,
    included: Seq<Seq<u8>>,
    chain: Seq<Seq<u8>>,
    fuel: nat,
)
    requires
        chain_ok(files, chain),
        chain.len() + fuel > files.len(),
        spec_expand(files, shader, upto, source, included, chain, fuel).0 is Err,
        spec_expand(files, shader, upto, source, included, chain, fuel).0->Err_0 is IncludeCycle,
    ensures
        exists|a: int, b: int|
            0 <= a < b < spec_expand(
                files,
                shader,
                upto,
                source,
                included,
                chain,
                fuel,
            ).0->Err_0->IncludeCycle_0.len() && spec_expand(
                files,
                shader,
                upto,
                source,
                included,
                chain,
                fuel,
            ).0->Err_0->IncludeCycle_0[a] == spec_expand(
                files,
                shader,
                upto,
                source,
                included,
                chain,
                fuel,
            ).0->Err_0->IncludeCycle_0[b],
    decreases fuel, upto,
{
    let whole = spec_expand(files, shader, upto, source, included, chain, fuel);
    if upto <= 0 || upto > files[shader].includes@.len() {
    } else {
        let directive = files[shader].includes@[upto - 1];
        let target = spec_lookup(files, directive.path@, 0);
        let longer = chain.push(directive.path@);
        if target < 0 {
        } else if included.contains(directive.path@) && files[target].pragma_once {
            lemma_cycle_repeats(
                files,
                shader,
                upto - 1,
                spec_splice(source, directive.start as int, directive.end as int, Seq::empty()),
                included,
                chain,
                fuel,
            );
        } else {
            assert(chain_ok(files, longer)) by {
                assert forall|k: int| 0 <= k < longer.len() implies spec_lookup(
                    files,
                    #[trigger] longer[k],
                    0,
                ) >= 0 by {
                    if k < chain.len() {
                        assert(longer[k] == chain[k]);
                    }
                }
            }
            if fuel == 0 {
                assert(whole.0 == Err::<Seq<u8>, ShaderFault>(ShaderFault::IncludeCycle(longer)));
                lemma_chain_repeats(files, longer);
                let pair = choose|a: int, b: int| 0 <= a < b < longer.len() && longer[a] == longer[b];
                assert(0 <= pair.0 < pair.1 < whole.0->Err_0->IncludeCycle_0.len()
                    && whole.0->Err_0->IncludeCycle_0[pair.0] == whole.0->Err_0->IncludeCycle_0[pair.1]);
            } else {
                let inner = spec_expand(
                    files,
                    target,
                    files[target].includes@.len() as int,
                    files[target].source@,
                    included.push(directive.path@),
                    longer,
                    (fuel - 1) as nat,
                );
                match inner.0 {
                    Err(e) => {
                        assert(whole.0 == Err::<Seq<u8>, ShaderFault>(e));
                        lemma_cycle_repeats(
                            files,
                            target,
                            files[target].includes@.len() as int,
                            files[target].source@,
                            included.push(directive.path@),
                            longer,
                            (fuel - 1) as nat,
                        );
                    },
                    Ok(text) => {
                        lemma_cycle_repeats(
                            files,
                            shader,
                            upto - 1,
                            spec_splice(source, directive.start as int, directive.end as int, text),
                            inner.1,
                            chain,
                            fuel,
                        );
                    },
                }
            }
        }
    }
}

/// Where putting a shader together ends in a cycle error, the chain of the
/// error holds a path twice.
pub proof fn lemma_process_cycle(files: Seq<ShaderFile>, path: Seq<u8>)
    requires
        spec_process(files, path) is Err,
        spec_process(files, path)->Err_0 is IncludeCycle,
    ensures
        exists|a: int, b: int|
            0 <= a < b < spec_process(files, path)->Err_0->IncludeCycle_0.len() && spec_process(
                files,
                path,
            )->Err_0->IncludeCycle_0[a] == spec_process(files, path)->Err_0->IncludeCycle_0[b],
{
    let shader = spec_lookup(files, path, 0);
    assert(chain_ok(files, seq![path]));
    assert(spec_depth_bound(files.len()) > files.len()) by (nonlinear_arith)
        requires
            spec_depth_bound(files.len()) == files.len() * (files.len() + 1) + 1,
    ;
    lemma_cycle_repeats(
        files,
        shader,
        files[shader].includes@.len() as int,
        files[shader].source@,
        seq![path],
        seq![path],
        spec_depth_bound(files.len()),
    );
}

/// Whether two texts are the same.
fn same_bytes(a: &[u8], b: &[u8]) -> (same: bool)
    ensures
        same == (a@ == b@),
{
    if a.len() != b.len() {
        return false;
    }
    let mut i: usize = 0;
    while i < a.len()
        invariant
            0 <= i <= a@.len(),
            a@.len() == b@.len(),
            forall|j: int| 0 <= j < i ==> a@[j] == b@[j],
        decreases a.len() - i,
    {
        if a[i] != b[i] {
            return false;
        }
        i += 1;
    }
    proof {
        assert(a@ =~= b@);
    }
    true
}

/// Whether the list holds the path.
fn holds_path(list: &Vec<Vec<u8>>, path: &[u8]) -> (held: bool)
    ensures
        held == spec_paths(list@).contains(path@),
{
    let mut i: usize = 0;
    while i < list.len()
        invariant
            0 <= i <= list@.len(),
            forall|j: int| 0 <= j < i ==> spec_paths(list@)[j] != path@,
        decreases list.len() - i,
    {
        if same_bytes(list[i].as_slice(), path) {
            proof {
                assert(spec_paths(list@)[i as int] == path@);
            }
            return true;
        }
        i += 1;
    }
    false
}

/// The source with the bytes from `start` up to `end` replaced by `with`.
fn splice(source: &[u8], start: usize, end: usize, with: &[u8]) -> (text: Vec<u8>)
    requires
        start <= end <= source@.len(),
    ensures
        text@ == spec_splice(source@, start as int, end as int, with@),
{
    let mut text = slice(source, 0, start);
    let mut middle = slice(with, 0, with.len());
    let mut rest = slice(source, end, source.len());
    text.append(&mut middle);
    text.append(&mut rest);
    proof {
        assert(source@.subrange(0, start as int) =~= source@.take(start as int));
        assert(with@.subrange(0, with@.len() as int) =~= with@);
        assert(source@.subrange(end as int, source@.len() as int) =~= source@.skip(end as int));
    }
    text
}

/// `std::path::Path::parent`, on a path kept as the bytes of its text: the
/// path without its last component, or nothing where the path has no
/// component to take off. Nothing is claimed of what comes back: the path
/// rules are those of the machine.
#[verifier::external_body]
fn path_parent(path: &[u8]) -> (parent: Option<Vec<u8>>) {
    let text = String::from_utf8_lossy(path).into_owned();
    match std::path::Path::new(&text).parent() {
        Some(parent) => Some(parent.to_string_lossy().into_owned().into_bytes()),
        None => None,
    }
}

/// `std::path::Path::join`, on paths kept as the bytes of their text: the
/// path `rest` as seen from the directory `base`. Nothing is claimed of
/// what comes back: the path rules are those of the machine.
#[verifier::external_body]
fn path_join(base: &[u8], rest: &[u8]) -> (joined: Vec<u8>) {
    let base = String::from_utf8_lossy(base).into_owned();
    let rest = String::from_utf8_lossy(rest).into_owned();
    std::path::Path::new(&base).join(rest).to_string_lossy().into_owned().into_bytes()
}

impl ShaderInclude {
    /// The directive with another path for its file, at the same place in
    /// the source.
    pub fn with_path(&self, path: Vec<u8>) -> (moved: ShaderInclude)
        ensures
            moved.path@ == path@,
            moved.start == self.start,
            moved.end == self.end,
    {
        ShaderInclude { path, start: self.start, end: self.end }
    }
}

impl ShaderFile {
    /// The directives lie inside the source.
    pub open spec fn wf(&self) -> bool {
        ranges_ok(self.includes@, self.source@.len() as int)
    }

    /// What `parent` makes of the answer of the path rules: the directory
    /// that was found, or the error that names this file where none was.
    pub fn parent_from(&self, found: Option<Vec<u8>>) -> (parent: Result<Vec<u8>, ShaderError>)
        ensures
            match found {
                Some(dir) => parent matches Ok(p) && p@ == dir@,
                None => parent matches Err(e) && e@ == ShaderFault::FileNotFound(self.path@),
            },
    {
        match found {
            Some(dir) => Ok(dir),
            None => {
                let path = slice(self.path.as_slice(), 0, self.path.len());
                proof {
                    assert(self.path@.subrange(0, self.path@.len() as int) =~= self.path@);
                }
                Err(ShaderError::FileNotFound(path))
            },
        }
    }

    /// The directory of the file, by the path rules of the machine; the
    /// error names this file where its path has no directory.
    pub fn parent(&self) -> (parent: Result<Vec<u8>, ShaderError>)
        ensures
            parent matches Err(e) ==> e@ == ShaderFault::FileNotFound(self.path@),
    {
        let found = path_parent(self.path.as_slice());
        self.parent_from(found)
    }

    /// The file with every directive naming its file as seen from the
    /// directory of this file, by the path rules of the machine. Source and
    /// directives stay where they are. A file without directives needs no
    /// directory; for any other the error names this file where its path
    /// has none.
    pub fn resolved(self) -> (made: Result<ShaderFile, ShaderError>)
        requires
            self.wf(),
        ensures
            match made {
                Ok(file) => {
                    &&& file.wf()
                    &&& file.path@ == self.path@
                    &&& file.source@ == self.source@
                    &&& file.pragma_once == self.pragma_once
                    &&& file.includes@.len() == self.includes@.len()
                    &&& forall|i: int|
                        0 <= i < file.includes@.len() ==> (#[trigger] file.includes@[i]).start
                            == self.includes@[i].start && file.includes@[i].end == self.includes@[i].end
                },
                Err(e) => self.includes@.len() > 0 && e@ == ShaderFault::FileNotFound(self.path@),
            },
            self.includes@.len() == 0 ==> made is Ok,
    {
        if self.includes.len() == 0 {
            return Ok(self);
        }
        let dir = match self.parent() {
            Ok(dir) => dir,
            Err(e) => {
                return Err(e);
            },
        };
        let mut includes: Vec<ShaderInclude> = Vec::new();
        let mut i: usize = 0;
        while i < self.includes.len()
            invariant
                0 <= i <= self.includes@.len(),
                includes@.len() == i,
                forall|j: int|
                    0 <= j < i ==> (#[trigger] includes@[j]).start == self.includes@[j].start
                        && includes@[j].end == self.includes@[j].end,
            decreases self.includes.len() - i,
        {
            let path = path_join(dir.as_slice(), self.includes[i].path.as_slice());
            let moved = self.includes[i].with_path(path);
            includes.push(moved);
            i += 1;
        }
        proof {
            assert forall|a: int| 0 <= a < includes@.len() implies (#[trigger] includes@[a]).start
                <= includes@[a].end <= self.source@.len() by {
                assert(self.includes@[a].start <= self.includes@[a].end);
            }
            assert forall|a: int, b: int| 0 <= a < b < includes@.len() implies (#[trigger] includes@[a]).end
                <= (#[trigger] includes@[b]).start by {
                assert(self.includes@[a].end <= self.includes@[b].start);
            }
        }
        Ok(ShaderFile { pragma_once: self.pragma_once, source: self.source, path: self.path, includes })
    }

    /// Opens a shader source that was read from `path`: takes a leading
    /// `#pragma once` off and finds the directives.
    pub fn open(path: Vec<u8>, source: Vec<u8>) -> (opened: Result<ShaderFile, ShaderError>)
        ensures
            match opened {
                Ok(file) => {
                    &&& file.wf()
                    &&& file.path@ == path@
                    &&& file.pragma_once == matches_at(source@, spec_pragma_once(), 0)
                    &&& file.source@ == spec_stripped(source@)
                    &&& spec_directives(file.source@, 0) == Ok::<Seq<(Seq<u8>, int, int)>, ShaderFault>(
                        spec_listed(file.includes@),
                    )
                },
                Err(e) => spec_directives(spec_stripped(source@), 0) == Err::<
                    Seq<(Seq<u8>, int, int)>,
                    ShaderFault,
                >(e@),
            },
    {
        let (source, pragma_once) = strip_pragma_once(source);
        match find_include_directives(source.as_slice()) {
            Ok(includes) => Ok(ShaderFile { pragma_once, source, path, includes }),
            Err(e) => Err(e),
        }
    }
}

impl ShaderProcessor {
    /// Every file that was opened has its directives inside its source.
    pub open spec fn wf(&self) -> bool {
        forall|i: int| 0 <= i < self.files@.len() ==> (#[trigger] self.files@[i]).wf()
    }

    /// No file has been opened.
    pub fn new() -> (processor: ShaderProcessor)
        ensures
            processor.files@ == Seq::<ShaderFile>::empty(),
            processor.wf(),
    {
        ShaderProcessor { files: Vec::new() }
    }

    /// Where the file that was opened under the path stands.
    fn lookup(&self, path: &[u8]) -> (found: Option<usize>)
        ensures
            match found {
                Some(i) => i == spec_lookup(self.files@, path@, 0) && i < self.files@.len(),
                None => spec_lookup(self.files@, path@, 0) == -1,
            },
    {
        let mut i: usize = 0;
        while i < self.files.len()
            invariant
                0 <= i <= self.files@.len(),
                spec_lookup(self.files@, path@, 0) == spec_lookup(self.files@, path@, i as int),
            decreases self.files.len() - i,
        {
            if same_bytes(self.files[i].path.as_slice(), path) {
                return Some(i);
            }
            i += 1;
        }
        None
    }

    /// Whether a file was opened under the path.
    pub fn contains_shader(&self, path: &[u8]) -> (held: bool)
        ensures
            held == (spec_lookup(self.files@, path@, 0) >= 0),
    {
        self.lookup(path).is_some()
    }

    /// The file that was opened under the path.
    pub fn get_shader(&self, path: &[u8]) -> (file: Option<&ShaderFile>)
        ensures
            match file {
                Some(file) => spec_lookup(self.files@, path@, 0) >= 0 && *file
                    == self.files@[spec_lookup(self.files@, path@, 0)],
                None => spec_lookup(self.files@, path@, 0) == -1,
            },
    {
        match self.lookup(path) {
            Some(i) => Some(&self.files[i]),
            None => None,
        }
    }

    /// Takes in a file that was opened, unless one is held under its path.
    pub fn open_shader(&mut self, file: ShaderFile)
        requires
            old(self).wf(),
            file.wf(),
        ensures
            final(self).wf(),
            final(self).files@ == if spec_lookup(old(self).files@, file.path@, 0) >= 0 {
                old(self).files@
            } else {
                old(self).files@.push(file)
            },
    {
        if self.lookup(file.path.as_slice()).is_none() {
            self.files.push(file);
        }
    }

    /// Resolves the directives of a file, the last first.
    fn process_shader_recursive(
        &self,
        shader: usize,
        included: &mut Vec<Vec<u8>>,
        chain: &Vec<Vec<u8>>,
        fuel: u128,
    ) -> (text: Result<Vec<u8>, ShaderError>)
        requires
            self.wf(),
            shader < self.files@.len(),
        ensures
            spec_paths(final(included)@) == spec_expand(
                self.files@,
                shader as int,
                self.files@[shader as int].includes@.len() as int,
                self.files@[shader as int].source@,
                spec_paths(old(included)@),
                spec_paths(chain@),
                fuel as nat,
            ).1,
            match text {
                Ok(text) => Ok::<Seq<u8>, ShaderFault>(text@),
                Err(e) => Err(e@),
            } == spec_expand(
                self.files@,
                shader as int,
                self.files@[shader as int].includes@.len() as int,
                self.files@[shader as int].source@,
                spec_paths(old(included)@),
                spec_paths(chain@),
                fuel as nat,
            ).0,
        decreases fuel,
    {
        let file = &self.files[shader];
        let count = file.includes.len();
        let mut source = slice(file.source.as_slice(), 0, file.source.len());
        proof {
            assert(file.source@.subrange(0, file.source@.len() as int) =~= file.source@);
        }
        let ghost goal = spec_expand(
            self.files@,
            shader as int,
            count as int,
            file.source@,
            spec_paths(included@),
            spec_paths(chain@),
            fuel as nat,
        );
        let mut upto = count;
        while upto > 0
            invariant
                self.wf(),
                shader < self.files@.len(),
                file == &self.files@[shader as int],
                0 <= upto <= count,
                count == file.includes@.len(),
                ranges_ok(file.includes@, file.source@.len() as int),
                forall|i: int| 0 <= i < upto ==> (#[trigger] file.includes@[i]).end <= source@.len(),
                goal == spec_expand(
                    self.files@,
                    shader as int,
                    count as int,
                    file.source@,
                    spec_paths(old(included)@),
                    spec_paths(chain@),
                    fuel as nat,
                ),
                goal == spec_expand(
                    self.files@,
                    shader as int,
                    upto as int,
                    source@,
                    spec_paths(included@),
                    spec_paths(chain@),
                    fuel as nat,
                ),
            decreases upto,
        {
            let directive = &file.includes[upto - 1];
            let target = match self.lookup(directive.path.as_slice()) {
                Some(target) => target,
                None => {
                    let path = slice(directive.path.as_slice(), 0, directive.path.len());
                    proof {
                        assert(directive.path@.subrange(0, directive.path@.len() as int)
                            =~= directive.path@);
                    }
                    return Err(ShaderError::FileNotFound(path));
                },
            };
            let once = self.files[target].pragma_once;
            if once && holds_path(included, directive.path.as_slice()) {
                let empty: Vec<u8> = Vec::new();
                source = splice(source.as_slice(), directive.start, directive.end, empty.as_slice());
                upto -= 1;
                continue ;
            }
            let path = slice(directive.path.as_slice(), 0, directive.path.len());
            let link = slice(directive.path.as_slice(), 0, directive.path.len());
            proof {
                assert(directive.path@.subrange(0, directive.path@.len() as int) =~= directive.path@);
            }
            let ghost before = spec_paths(included@);
            included.push(path);
            let mut longer = copy_paths(chain);
            longer.push(link);
            proof {
                assert(spec_paths(included@) =~= before.push(directive.path@));
                assert(spec_paths(longer@) =~= spec_paths(chain@).push(directive.path@));
            }
            if fuel == 0 {
                return Err(ShaderError::IncludeCycle(longer));
            }
            let text = match self.process_shader_recursive(target, included, &longer, fuel - 1) {
                Ok(text) => text,
                Err(e) => {
                    return Err(e);
                },
            };
            source = splice(source.as_slice(), directive.start, directive.end, text.as_slice());
            upto -= 1;
        }
        Ok(source)
    }

    /// Puts the shader at `path` together: every `#include` is replaced by
    /// the text of the file it names, put together in the same way, but for
    /// a file marked `#pragma once` that was included before. Asks for a
    /// file that has not been opened by its path. Files that include each
    /// other without end are refused once the chain of them is longer than
    /// any chain that ends can be; the chain comes with the error.
    pub fn process_shader(&self, path: &[u8]) -> (text: Result<Vec<u8>, ShaderError>)
        requires
            self.wf(),
        ensures
            match text {
                Ok(text) => Ok::<Seq<u8>, ShaderFault>(text@),
                Err(e) => Err(e@),
            } == spec_process(self.files@, path@),
    {
        let shader = match self.lookup(path) {
            Some(shader) => shader,
            None => {
                let wanted = slice(path, 0, path.len());
                proof {
                    assert(path@.subrange(0, path@.len() as int) =~= path@);
                }
                return Err(ShaderError::FileNotFound(wanted));
            },
        };
        let mut included: Vec<Vec<u8>> = Vec::new();
        included.push(slice(path, 0, path.len()));
        let mut chain: Vec<Vec<u8>> = Vec::new();
        chain.push(slice(path, 0, path.len()));
        proof {
            assert(path@.subrange(0, path@.len() as int) =~= path@);
            assert(spec_paths(included@) =~= seq![path@]);
            assert(spec_paths(chain@) =~= seq![path@]);
        }
        let count = self.files.len() as u128;
        assert(count * (count + 1) + 1 <= 0xffff_ffff_ffff_ffff * 0x1_0000_0000_0000_0000 + 1)
            by (nonlinear_arith)
            requires
                0 <= count <= 0xffff_ffff_ffff_ffff,
        ;
        let fuel: u128 = count * (count + 1) + 1;
        self.process_shader_recursive(shader, &mut included, &chain, fuel)
    }
}

/// A copy of a list of paths.
fn copy_paths(list: &Vec<Vec<u8>>) -> (copy: Vec<Vec<u8>>)
    ensures
        spec_paths(copy@) == spec_paths(list@),
{
    let mut copy: Vec<Vec<u8>> = Vec::new();
    let mut i: usize = 0;
    while i < list.len()
        invariant
            0 <= i <= list@.len(),
            spec_paths(copy@) == spec_paths(list@).take(i as int),
        decreases list.len() - i,
    {
        let path = slice(list[i].as_slice(), 0, list[i].len());
        let ghost before = spec_paths(copy@);
        copy.push(path);
        proof {
            assert(list@[i as int]@.subrange(0, list@[i as int]@.len() as int) =~= list@[i as int]@);
            assert(spec_paths(copy@) =~= before.push(list@[i as int]@));
            assert(spec_paths(list@).take(i + 1) =~= spec_paths(list@).take(i as int).push(
                list@[i as int]@,
            ));
        }
        i += 1;
    }
    proof {
        assert(spec_paths(list@).take(i as int) =~= spec_paths(list@));
    }
    copy
}

} // verus!
