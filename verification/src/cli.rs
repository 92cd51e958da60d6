use vstd::prelude::*;
use vstd::string::StringExecFns;

use crate::options::{StripChunks, names_contain, safe_names};
use crate::ranges::{chars_of, split_on, split_chars};
use crate::report::{chars_to_string, parse_chunk_name, trim_chars};

verus! {

/// The chunk name that a piece of a list names, if it names one: the bytes
/// of the piece without surrounding white space, when there are four.
pub open spec fn piece_name(piece: Seq<char>) -> Option<Seq<u8>> {
    let bytes = vstd::utf8::encode_utf8(trim_chars(piece));
    if bytes.len() == 4 {
        Some(bytes)
    } else {
        None
    }
}

/// The critical chunks, which cannot be stripped.
pub open spec fn forbidden_names() -> Seq<Seq<u8>> {
    seq![
        seq![73u8, 72u8, 68u8, 82u8],
        seq![73u8, 68u8, 65u8, 84u8],
        seq![116u8, 82u8, 78u8, 83u8],
        seq![80u8, 76u8, 84u8, 69u8],
        seq![73u8, 69u8, 78u8, 68u8],
    ]
}

/// The names of a list of chunk names, as bytes.
pub open spec fn name_bytes(names: Seq<[u8; 4]>) -> Seq<Seq<u8>> {
    names.map_values(|n: [u8; 4]| n@)
}

/// What a list of chunks to strip gives, piece by piece: the names, each
/// once, or the message of the first piece that is refused.
pub open spec fn strip_list(pieces: Seq<Seq<char>>) -> Result<Seq<Seq<u8>>, Seq<char>>
    decreases pieces.len(),
{
    if pieces.len() == 0 {
        Ok(Seq::empty())
    } else {
        match strip_list(pieces.drop_last()) {
            Err(m) => Err(m),
            Ok(names) => {
                let x = pieces.last();
                if x == "safe"@ || x == "all"@ {
                    Err("'safe' or 'all' presets for --strip should be used by themselves"@)
                } else {
                    match piece_name(x) {
                        None => Err("Invalid chunk name "@ + x),
                        Some(n) => if forbidden_names().contains(n) {
                            Err(x + " chunk is not allowed to be stripped"@)
                        } else if names.contains(n) {
                            Ok(names)
                        } else {
                            Ok(names.push(n))
                        },
                    }
                }
            },
        }
    }
}

/// What a list of chunks to keep gives, piece by piece: the names, each once,
/// whether `display` was among them, or the message of the first piece that
/// is refused.
pub open spec fn keep_list(pieces: Seq<Seq<char>>) -> Result<(Seq<Seq<u8>>, bool), Seq<char>>
    decreases pieces.len(),
{
    if pieces.len() == 0 {
        Ok((Seq::empty(), false))
    } else {
        match keep_list(pieces.drop_last()) {
            Err(m) => Err(m),
            Ok((names, display)) => {
                let x = pieces.last();
                if x == "display"@ {
                    Ok((names, true))
                } else {
                    match piece_name(x) {
                        None => Err("Invalid chunk name "@ + x),
                        Some(n) => if names.contains(n) {
                            Ok((names, display))
                        } else {
                            Ok((names.push(n), display))
                        },
                    }
                }
            },
        }
    }
}

/// The names with those of `more` added, each once.
pub open spec fn with_names(names: Seq<Seq<u8>>, more: Seq<Seq<u8>>) -> Seq<Seq<u8>>
    decreases more.len(),
{
    if more.len() == 0 {
        names
    } else {
        let before = with_names(names, more.drop_last());
        if before.contains(more.last()) {
            before
        } else {
            before.push(more.last())
        }
    }
}

/// The interlacing that a mode names: 0 for `off` or `0`, 1 for `on` or `1`,
/// none (keep each image's own) for anything else.
pub open spec fn spec_interlace_mode(mode: Seq<char>) -> Option<u8> {
    if mode == "off"@ || mode == "0"@ {
        Some(0)
    } else if mode == "on"@ || mode == "1"@ {
        Some(1)
    } else {
        None
    }
}

/// Whether two character sequences are the same.
fn same_chars(a: &Vec<char>, b: &str) -> (r: bool)
    ensures
        r == (a@ == b@),
{
    let bc = chars_of(b);
    if a.len() != bc.len() {
        return false;
    }
    let mut i: usize = 0;
    while i < a.len()
        invariant
            a@.len() == bc@.len(),
            bc@ == b@,
            i <= a@.len(),
            forall|k: int| 0 <= k < i ==> a@[k] == bc@[k],
        decreases a@.len() - i,
    {
        if a[i] != bc[i] {
            return false;
        }
        i += 1;
    }
    assert(a@ =~= bc@);
    true
}

/// The interlacing that a mode names.
pub fn parse_interlace_mode(mode: &str) -> (r: Option<u8>)
    ensures
        r == spec_interlace_mode(mode@),
{
    let chars = chars_of(mode);
    if same_chars(&chars, "off") || same_chars(&chars, "0") {
        Some(0)
    } else if same_chars(&chars, "on") || same_chars(&chars, "1") {
        Some(1)
    } else {
        None
    }
}

/// Whether the list holds the name.
fn holds_name(names: &Vec<[u8; 4]>, name: &[u8; 4]) -> (r: bool)
    ensures
        r == name_bytes(names@).contains(name@),
{
    let mut i: usize = 0;
    while i < names.len()
        invariant
            i <= names@.len(),
            forall|k: int| 0 <= k < i ==> names@[k]@ != name@,
        decreases names@.len() - i,
    {
        if crate::options::same_name(&names[i], name) {
            assert(name_bytes(names@)[i as int] == name@);
            return true;
        }
        i += 1;
    }
    assert forall|k: int| 0 <= k < name_bytes(names@).len() implies name_bytes(names@)[k] != name@ by {
        assert(name_bytes(names@)[k] == names@[k]@);
    }
    false
}

/// The critical chunk names.
fn forbidden() -> (r: [[u8; 4]; 5])
    ensures
        forall|k: int| 0 <= k < 5 ==> (#[trigger] r@[k])@ == forbidden_names()[k],
{
    let r = [[73, 72, 68, 82], [73, 68, 65, 84], [116, 82, 78, 83], [80, 76, 84, 69], [73, 69, 78, 68]];
    assert(r@[0]@ =~= forbidden_names()[0]);
    assert(r@[1]@ =~= forbidden_names()[1]);
    assert(r@[2]@ =~= forbidden_names()[2]);
    assert(r@[3]@ =~= forbidden_names()[3]);
    assert(r@[4]@ =~= forbidden_names()[4]);
    r
}

/// Whether the name is that of a critical chunk.
fn is_forbidden(name: &[u8; 4]) -> (r: bool)
    ensures
        r == forbidden_names().contains(name@),
{
    let f = forbidden();
    let mut i: usize = 0;
    while i < 5
        invariant
            i <= 5,
            forall|k: int| 0 <= k < 5 ==> (#[trigger] f@[k])@ == forbidden_names()[k],
            forall|k: int| 0 <= k < i ==> forbidden_names()[k] != name@,
        decreases 5 - i,
    {
        if crate::options::same_name(&f[i], name) {
            assert(forbidden_names()[i as int] == name@);
            return true;
        }
        i += 1;
    }
    false
}

/// Parse the chunks to strip: `safe`, `all`, or a comma-separated list of
/// names.
pub fn parse_strip(strip: &str) -> (r: Result<StripChunks, String>)
    ensures
        strip@ == "safe"@ ==> r matches Ok(StripChunks::Safe),
        strip@ == "all"@ ==> r matches Ok(StripChunks::All),
        strip@ != "safe"@ && strip@ != "all"@ ==> match strip_list(split_on(strip@, ',')) {
            Ok(names) => r matches Ok(StripChunks::Strip(v)) && name_bytes(v@) == names,
            Err(m) => r matches Err(msg) && msg@ == m,
        },
{
    proof {
        reveal_strlit("safe");
        reveal_strlit("all");
    }
    let chars = chars_of(strip);
    if same_chars(&chars, "safe") {
        return Ok(StripChunks::Safe);
    }
    if same_chars(&chars, "all") {
        return Ok(StripChunks::All);
    }
    let pieces = split_chars(&chars, ',');
    let ghost ps = split_on(strip@, ',');
    let mut names: Vec<[u8; 4]> = Vec::new();
    proof {
        assert(ps.take(0) =~= Seq::<Seq<char>>::empty());
        assert(name_bytes(names@) =~= Seq::<Seq<u8>>::empty());
    }
    let mut k: usize = 0;
    while k < pieces.len()
        invariant
            strip@ != "safe"@,
            strip@ != "all"@,
            ps == split_on(strip@, ','),
            pieces@.len() == ps.len(),
            forall|i: int| 0 <= i < pieces@.len() ==> (#[trigger] pieces@[i])@ == ps[i],
            k <= ps.len(),
            strip_list(ps.take(k as int)) == Ok::<Seq<Seq<u8>>, Seq<char>>(name_bytes(names@)),
        decreases ps.len() - k,
    {
        assert(ps.take(k + 1).drop_last() =~= ps.take(k as int));
        assert(ps.take(k + 1).last() == ps[k as int]);
        let piece = &pieces[k];
        if same_chars(piece, "safe") || same_chars(piece, "all") {
            proof {
                assert(strip_list(ps.take(k + 1)) is Err);
                lemma_strip_fails(ps, (k + 1) as int);
            }
            return Err(String::from_str("'safe' or 'all' presets for --strip should be used by themselves"));
        }
        let text = chars_to_string(copy_chars(piece));
        let name = match parse_chunk_name(text.as_str()) {
            Ok(n) => n,
            Err(e) => {
                proof {
                    assert(piece_name(ps[k as int]) is None);
                    assert(strip_list(ps.take(k + 1)) == Err::<Seq<Seq<u8>>, Seq<char>>(e@));
                    lemma_strip_fails(ps, (k + 1) as int);
                }
                return Err(e);
            },
        };
        assert(piece_name(ps[k as int]) == Some(name@));
        if is_forbidden(&name) {
            let mut msg = chars_to_string(copy_chars(piece));
            msg.append(" chunk is not allowed to be stripped");
            proof {
                lemma_strip_fails(ps, (k + 1) as int);
            }
            return Err(msg);
        }
        let ghost before = names@;
        if !holds_name(&names, &name) {
            names.push(name);
            assert(names@.drop_last() =~= before);
            assert(name_bytes(names@) =~= name_bytes(before).push(name@));
        }
        assert(strip_list(ps.take(k + 1)) == Ok::<Seq<Seq<u8>>, Seq<char>>(name_bytes(names@)));
        k += 1;
    }
    assert(ps.take(ps.len() as int) =~= ps);
    Ok(StripChunks::Strip(names))
}

/// Once a prefix of the list is refused, the whole list is refused with the
/// same message.
proof fn lemma_strip_fails(ps: Seq<Seq<char>>, k: int)
    requires
        0 <= k <= ps.len(),
        strip_list(ps.take(k)) is Err,
    ensures
        strip_list(ps) == strip_list(ps.take(k)),
    decreases ps.len() - k,
{
    if k < ps.len() {
        assert(ps.take(k + 1).drop_last() =~= ps.take(k));
        lemma_strip_fails(ps, k + 1);
    } else {
        assert(ps.take(k) =~= ps);
    }
}

proof fn lemma_keep_fails(ps: Seq<Seq<char>>, k: int)
    requires
        0 <= k <= ps.len(),
        keep_list(ps.take(k)) is Err,
    ensures
        keep_list(ps) == keep_list(ps.take(k)),
    decreases ps.len() - k,
{
    if k < ps.len() {
        assert(ps.take(k + 1).drop_last() =~= ps.take(k));
        lemma_keep_fails(ps, k + 1);
    } else {
        assert(ps.take(k) =~= ps);
    }
}

/// A copy of the characters.
fn copy_chars(v: &Vec<char>) -> (r: Vec<char>)
    ensures
        r@ == v@,
{
    let mut r: Vec<char> = Vec::new();
    let mut i: usize = 0;
    while i < v.len()
        invariant
            i <= v@.len(),
            r@ == v@.take(i as int),
        decreases v@.len() - i,
    {
        r.push(v[i]);
        i += 1;
        assert(r@ =~= v@.take(i as int));
    }
    assert(v@.take(v@.len() as int) =~= v@);
    r
}

/// The chunks that affect how an image is displayed: those that the `safe`
/// stripping keeps.
pub fn display_chunks() -> (r: Vec<[u8; 4]>)
    ensures
        name_bytes(r@) == safe_names(),
{
    let r = vec![
        [99, 72, 82, 77],
        [103, 65, 77, 65],
        [105, 67, 67, 80],
        [115, 66, 73, 84],
        [115, 82, 71, 66],
        [98, 75, 71, 68],
        [104, 73, 83, 84],
        [112, 72, 89, 115],
        [115, 80, 76, 84],
    ];
    assert(name_bytes(r@) =~= safe_names()) by {
        assert(r@[0]@ =~= safe_names()[0]);
        assert(r@[1]@ =~= safe_names()[1]);
        assert(r@[2]@ =~= safe_names()[2]);
        assert(r@[3]@ =~= safe_names()[3]);
        assert(r@[4]@ =~= safe_names()[4]);
        assert(r@[5]@ =~= safe_names()[5]);
        assert(r@[6]@ =~= safe_names()[6]);
        assert(r@[7]@ =~= safe_names()[7]);
        assert(r@[8]@ =~= safe_names()[8]);
    }
    r
}

/// Parse the chunks to keep: a comma-separated list of names, where
/// `display` stands for the chunks that affect how the image is displayed.
pub fn parse_keep(keep: &str) -> (r: Result<StripChunks, String>)
    ensures
        match keep_list(split_on(keep@, ',')) {
            Ok((names, display)) => r matches Ok(StripChunks::Keep(v)) && name_bytes(v@) == if display {
                with_names(names, safe_names())
            } else {
                names
            },
            Err(m) => r matches Err(msg) && msg@ == m,
        },
{
    let chars = chars_of(keep);
    let pieces = split_chars(&chars, ',');
    let ghost ps = split_on(keep@, ',');
    let mut names: Vec<[u8; 4]> = Vec::new();
    let mut keep_display = false;
    proof {
        assert(ps.take(0) =~= Seq::<Seq<char>>::empty());
        assert(name_bytes(names@) =~= Seq::<Seq<u8>>::empty());
    }
    let mut k: usize = 0;
    while k < pieces.len()
        invariant
            ps == split_on(keep@, ','),
            pieces@.len() == ps.len(),
            forall|i: int| 0 <= i < pieces@.len() ==> (#[trigger] pieces@[i])@ == ps[i],
            k <= ps.len(),
            keep_list(ps.take(k as int)) == Ok::<(Seq<Seq<u8>>, bool), Seq<char>>((name_bytes(names@), keep_display)),
        decreases ps.len() - k,
    {
        assert(ps.take(k + 1).drop_last() =~= ps.take(k as int));
        assert(ps.take(k + 1).last() == ps[k as int]);
        let piece = &pieces[k];
        if same_chars(piece, "display") {
            keep_display = true;
            assert(keep_list(ps.take(k + 1)) == Ok::<(Seq<Seq<u8>>, bool), Seq<char>>((name_bytes(names@), true)));
        } else {
            let text = chars_to_string(copy_chars(piece));
            let name = match parse_chunk_name(text.as_str()) {
                Ok(n) => n,
                Err(e) => {
                    proof {
                        assert(piece_name(ps[k as int]) is None);
                        assert(keep_list(ps.take(k + 1)) == Err::<(Seq<Seq<u8>>, bool), Seq<char>>(e@));
                        lemma_keep_fails(ps, (k + 1) as int);
                    }
                    return Err(e);
                },
            };
            assert(piece_name(ps[k as int]) == Some(name@));
            let ghost before = names@;
            if !holds_name(&names, &name) {
                names.push(name);
                assert(names@.drop_last() =~= before);
                assert(name_bytes(names@) =~= name_bytes(before).push(name@));
            }
            assert(keep_list(ps.take(k + 1)) == Ok::<(Seq<Seq<u8>>, bool), Seq<char>>((name_bytes(names@), keep_display)));
        }
        k += 1;
    }
    assert(ps.take(ps.len() as int) =~= ps);
    if keep_display {
        let display = display_chunks();
        let ghost base = name_bytes(names@);
        let mut j: usize = 0;
        while j < display.len()
            invariant
                name_bytes(display@) == safe_names(),
                j <= display@.len(),
                name_bytes(names@) == with_names(base, safe_names().take(j as int)),
            decreases display@.len() - j,
        {
            assert(safe_names().take(j + 1).drop_last() =~= safe_names().take(j as int));
            assert(safe_names().take(j + 1).last() == display@[j as int]@);
            if !holds_name(&names, &display[j]) {
                names.push(display[j]);
                assert(name_bytes(names@) =~= name_bytes(names@.drop_last()).push(display@[j as int]@));
            }
            j += 1;
        }
        assert(safe_names().take(9) =~= safe_names());
    }
    Ok(StripChunks::Keep(names))
}


/// A name is among the names with `more` added exactly when it is among the
/// names or among `more`.
proof fn lemma_with_names_contains(names: Seq<Seq<u8>>, more: Seq<Seq<u8>>, x: Seq<u8>)
    ensures
        with_names(names, more).contains(x) <==> (names.contains(x) || more.contains(x)),
    decreases more.len(),
{
    if more.len() > 0 {
        lemma_with_names_contains(names, more.drop_last(), x);
        let before = with_names(names, more.drop_last());
        if more.contains(x) && !more.drop_last().contains(x) {
            let i = choose|i: int| 0 <= i < more.len() && more[i] == x;
            if i < more.len() - 1 {
                assert(more.drop_last()[i] == x);
            }
        }
        if more.drop_last().contains(x) {
            let i = choose|i: int| 0 <= i < more.drop_last().len() && more.drop_last()[i] == x;
            assert(more[i] == x);
        }
        if !before.contains(more.last()) && before.push(more.last()).contains(x) && x != more.last() {
            let i = choose|i: int| 0 <= i < before.push(more.last()).len() && before.push(more.last())[i] == x;
            assert(before[i] == x);
        }
        assert(more[more.len() - 1] == more.last());
        if !before.contains(more.last()) && before.contains(x) {
            let i = choose|i: int| 0 <= i < before.len() && before[i] == x;
            assert(before.push(more.last())[i] == x);
        }
        if !before.contains(more.last()) {
            assert(before.push(more.last())[before.len() as int] == more.last());
        }
    }
}

/// A list of chunk names keeps a name exactly when the name is among its
/// names.
proof fn lemma_names_contain(v: Seq<[u8; 4]>, x: Seq<u8>)
    ensures
        names_contain(v, x) <==> name_bytes(v).contains(x),
{
    if names_contain(v, x) {
        let i = choose|i: int| 0 <= i < v.len() && v[i]@ == x;
        assert(name_bytes(v)[i] == x);
    }
    if name_bytes(v).contains(x) {
        let i = choose|i: int| 0 <= i < name_bytes(v).len() && name_bytes(v)[i] == x;
        assert(v[i]@ == x);
    }
}

/// With `display` among the chunks to keep, every chunk that the `safe`
/// stripping keeps stays; `display` alone keeps exactly those chunks.
pub proof fn lemma_display_keeps_safe(names: Seq<Seq<u8>>, v: Vec<[u8; 4]>)
    requires
        name_bytes(v@) == with_names(names, safe_names()),
    ensures
        forall|n: Seq<u8>| StripChunks::Safe.spec_keep(n) ==> #[trigger] StripChunks::Keep(v).spec_keep(n),
        names.len() == 0 ==> forall|n: Seq<u8>| #[trigger] StripChunks::Keep(v).spec_keep(n)
            == StripChunks::Safe.spec_keep(n),
{
    assert forall|n: Seq<u8>| #[trigger] StripChunks::Keep(v).spec_keep(n) == (names.contains(n)
        || safe_names().contains(n)) by {
        lemma_names_contain(v@, n);
        lemma_with_names_contains(names, safe_names(), n);
    }
}

} // verus!
