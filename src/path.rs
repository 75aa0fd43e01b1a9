use vstd::prelude::*;

verus! {

/// Why a packed record could not be turned into a container-relative path.
#[derive(Debug)]
pub enum PathError {
    /// The joined path does not begin with the containment prefix.
    PrefixMismatch { mount_point: String, record_path: String },
    /// The remaining path is not valid portable text. Paths handled here are
    /// `String`s, which are always valid text, so `normalize` never yields it.
    NonRepresentablePath { mount_point: String, record_path: String },
}

/// `lead` followed by `tail`.
pub fn prefixed(lead: &str, tail: &str) -> (r: String)
    ensures
        r@ == lead@ + tail@,
{
    let mut out = lead.to_owned();
    out.append(tail);
    out
}

/// The message of a path error.
pub open spec fn path_error_text(e: PathError) -> Seq<char> {
    match e {
        PathError::PrefixMismatch { mount_point, record_path } => "prefix mismatch: mount point "@
            + mount_point@ + ", record path "@ + record_path@,
        PathError::NonRepresentablePath { mount_point, record_path } =>
            "path not representable: mount point "@ + mount_point@ + ", record path "@
            + record_path@,
    }
}

impl PathError {
    /// The message of this error, with the mount point and record path it carries.
    pub fn message(&self) -> (r: String)
        ensures
            r@ == path_error_text(*self),
    {
        let (lead, m, p) = match self {
            PathError::PrefixMismatch { mount_point, record_path } => (
                "prefix mismatch: mount point ",
                mount_point,
                record_path,
            ),
            PathError::NonRepresentablePath { mount_point, record_path } => (
                "path not representable: mount point ",
                mount_point,
                record_path,
            ),
        };
        let mut out = prefixed(lead, m.as_str());
        out.append(", record path ");
        out.append(p.as_str());
        out
    }
}

/// `record` appended to `mount` as a filesystem path: an absolute record
/// replaces the mount point, otherwise one separator stands between them.
pub open spec fn join_spec(mount: Seq<char>, record: Seq<char>) -> Seq<char> {
    if record.len() > 0 && record[0] == '/' {
        record
    } else if mount.len() == 0 {
        record
    } else if mount.last() == '/' {
        mount + record
    } else {
        mount + seq!['/'] + record
    }
}

/// The pieces of `p` between separators, empty ones included.
pub open spec fn segments(p: Seq<char>) -> Seq<Seq<char>>
    decreases p.len(),
{
    if p.len() == 0 {
        seq![Seq::empty()]
    } else if p.last() == '/' {
        segments(p.drop_last()).push(Seq::empty())
    } else {
        let s = segments(p.drop_last());
        s.update(s.len() - 1, s.last().push(p.last()))
    }
}

/// A segment that names no component: an empty one (from a repeated or
/// trailing separator) or `.`.
pub open spec fn is_skipped(c: Seq<char>) -> bool {
    c.len() == 0 || c == seq!['.']
}

/// The segments that name a component, in order.
pub open spec fn kept(s: Seq<Seq<char>>) -> Seq<Seq<char>>
    decreases s.len(),
{
    if s.len() == 0 {
        s
    } else if is_skipped(s.last()) {
        kept(s.drop_last())
    } else {
        kept(s.drop_last()).push(s.last())
    }
}

/// The components of a path: `/` for a root, `.` for a leading current
/// directory, then each segment that is neither empty nor `.`.
pub open spec fn components(p: Seq<char>) -> Seq<Seq<char>> {
    let head = if p.len() > 0 && p[0] == '/' {
        seq![seq!['/']]
    } else if segments(p)[0] == seq!['.'] {
        seq![seq!['.']]
    } else {
        Seq::empty()
    };
    head + kept(segments(p))
}

/// Components joined by single separators.
pub open spec fn join_components(cs: Seq<Seq<char>>) -> Seq<char>
    decreases cs.len(),
{
    if cs.len() == 0 {
        Seq::empty()
    } else if cs.len() == 1 {
        cs[0]
    } else {
        join_components(cs.drop_last()) + seq!['/'] + cs.last()
    }
}

/// The canonical text of a sequence of components: a root component stands
/// as a leading separator.
pub open spec fn render(cs: Seq<Seq<char>>) -> Seq<char> {
    if cs.len() > 0 && cs[0] == seq!['/'] {
        seq!['/'] + join_components(cs.skip(1))
    } else {
        join_components(cs)
    }
}

/// `p` begins with the components of `pre`.
pub open spec fn path_starts_with(p: Seq<char>, pre: Seq<char>) -> bool {
    let c = components(p);
    let k = components(pre);
    k.len() <= c.len() && c.subrange(0, k.len() as int) == k
}

/// The canonical text of the components of `p` that follow those of `pre`.
pub open spec fn strip_spec(p: Seq<char>, pre: Seq<char>) -> Seq<char> {
    render(components(p).skip(components(pre).len() as int))
}

/// The normalized path of a record, if the joined path lies under the prefix.
pub open spec fn normalize_spec(mount: Seq<char>, record: Seq<char>, pre: Seq<char>) -> Option<
    Seq<char>,
> {
    let joined = join_spec(mount, record);
    if path_starts_with(joined, pre) {
        Some(strip_spec(joined, pre))
    } else {
        None
    }
}

pub open spec fn views(v: Seq<String>) -> Seq<Seq<char>> {
    v.map_values(|c: String| c@)
}

proof fn lemma_segments_len(p: Seq<char>)
    ensures
        segments(p).len() >= 1,
    decreases p.len(),
{
    if p.len() > 0 {
        lemma_segments_len(p.drop_last());
    }
}

/// The components of `s`, computed in one pass.
fn components_of(s: &str) -> (r: Vec<String>)
    ensures
        views(r@) == components(s@),
{
    let n = s.unicode_len();
    let mut out: Vec<String> = Vec::new();
    let mut start: usize = 0;
    let mut first_end: usize = 0;
    let mut i: usize = 0;
    proof {
        assert(s@.subrange(0, 0) =~= Seq::<char>::empty());
        assert(views(out@) =~= kept(segments(s@.subrange(0, 0)).drop_last()));
    }
    while i < n
        invariant
            n == s@.len(),
            start <= i <= n,
            first_end <= i,
            segments(s@.subrange(0, i as int)).len() >= 1,
            views(out@) == kept(segments(s@.subrange(0, i as int)).drop_last()),
            segments(s@.subrange(0, i as int)).last() == s@.subrange(start as int, i as int),
            (start == 0) == (segments(s@.subrange(0, i as int)).len() == 1),
            segments(s@.subrange(0, i as int))[0] == if start == 0 {
                s@.subrange(0, i as int)
            } else {
                s@.subrange(0, first_end as int)
            },
        decreases n - i,
    {
        let ghost pre = s@.subrange(0, i as int);
        let ghost next = s@.subrange(0, i + 1);
        assert(next.drop_last() =~= pre);
        assert(next.last() == s@[i as int]);
        let c = s.get_char(i);
        if c == '/' {
            let cur = s.substring_char(start, i);
            let skip = cur.unicode_len() == 0 || (cur.unicode_len() == 1 && cur.get_char(0) == '.');
            proof {
                reveal_strlit(".");
                assert(skip == is_skipped(cur@)) by {
                    if cur@.len() == 1 && cur@ != seq!['.'] {
                        assert(cur@[0] != '.' || cur@ =~= seq!['.']);
                    }
                }
                assert(segments(next).drop_last() =~= segments(pre));
            }
            if !skip {
                let ghost prior = out@;
                out.push(cur.to_owned());
                proof {
                    assert(views(out@) =~= views(prior).push(cur@));
                }
            }
            if start == 0 {
                first_end = i;
            }
            start = i + 1;
            proof {
                assert(s@.subrange(start as int, i + 1) =~= Seq::<char>::empty());
            }
        } else {
            proof {
                let sp = segments(pre);
                assert(segments(next) == sp.update(sp.len() - 1, sp.last().push(c)));
                assert(segments(next).drop_last() =~= sp.drop_last());
                assert(s@.subrange(start as int, i + 1) =~= s@.subrange(start as int, i as int).push(c));
                if start == 0 {
                    assert(s@.subrange(0, i + 1) =~= s@.subrange(0, i as int).push(c));
                }
            }
        }
        i = i + 1;
    }
    assert(s@.subrange(0, n as int) =~= s@);
    let last = s.substring_char(start, n);
    let skip = last.unicode_len() == 0 || (last.unicode_len() == 1 && last.get_char(0) == '.');
    proof {
        reveal_strlit(".");
        assert(skip == is_skipped(last@)) by {
            if last@.len() == 1 && last@ != seq!['.'] {
                assert(last@[0] != '.' || last@ =~= seq!['.']);
            }
        }
    }
    if !skip {
        let ghost prior = out@;
        out.push(last.to_owned());
        proof {
            assert(views(out@) =~= views(prior).push(last@));
        }
    }
    assert(views(out@) == kept(segments(s@)));
    let first_len = if start == 0 {
        n
    } else {
        first_end
    };
    let rooted = n > 0 && s.get_char(0) == '/';
    let dotted = first_len == 1 && s.get_char(0) == '.';
    proof {
        let f = segments(s@)[0];
        assert(f.len() == first_len);
        if first_len == 1 {
            assert(f[0] == s@[0]);
        }
        assert(dotted == (f == seq!['.'])) by {
            if first_len == 1 && f != seq!['.'] {
                assert(f[0] != '.' || f =~= seq!['.']);
            }
        }
    }
    if rooted {
        let tok = "/".to_owned();
        proof {
            reveal_strlit("/");
            assert(tok@ =~= seq!['/']);
        }
        let ghost prior = out@;
        out.insert(0, tok);
        proof {
            assert(out@ == prior.insert(0, tok));
            assert(views(out@) =~= seq![seq!['/']] + kept(segments(s@))) by {
                assert forall|j: int| 0 <= j < views(out@).len() implies views(out@)[j] == (seq![
                    seq!['/'],
                ] + kept(segments(s@)))[j] by {
                    if j > 0 {
                        assert(out@[j] == prior[j - 1]);
                    }
                }
            }
        }
    } else if dotted {
        let tok = ".".to_owned();
        proof {
            reveal_strlit(".");
            assert(tok@ =~= seq!['.']);
        }
        let ghost prior = out@;
        out.insert(0, tok);
        proof {
            assert(out@ == prior.insert(0, tok));
            assert(views(out@) =~= seq![seq!['.']] + kept(segments(s@))) by {
                assert forall|j: int| 0 <= j < views(out@).len() implies views(out@)[j] == (seq![
                    seq!['.'],
                ] + kept(segments(s@)))[j] by {
                    if j > 0 {
                        assert(out@[j] == prior[j - 1]);
                    }
                }
            }
        }
    } else {
        assert(views(out@) =~= Seq::<Seq<char>>::empty() + kept(segments(s@)));
    }
    out
}

/// The components `cs[from..]` joined by single separators.
fn join_from(cs: &Vec<String>, from: usize) -> (r: String)
    requires
        from <= cs@.len(),
    ensures
        r@ == join_components(views(cs@).subrange(from as int, cs@.len() as int)),
{
    let mut out = String::new();
    let mut i: usize = from;
    proof {
        assert(views(cs@).subrange(from as int, from as int) =~= Seq::<Seq<char>>::empty());
    }
    while i < cs.len()
        invariant
            from <= i <= cs@.len(),
            out@ == join_components(views(cs@).subrange(from as int, i as int)),
        decreases cs@.len() - i,
    {
        let ghost before = views(cs@).subrange(from as int, i as int);
        let ghost after = views(cs@).subrange(from as int, i + 1);
        assert(after.drop_last() =~= before);
        assert(after.last() == cs@[i as int]@);
        if i > from {
            proof {
                reveal_strlit("/");
            }
            out.append("/");
        } else {
            assert(after =~= seq![cs@[i as int]@]);
        }
        out.append(cs[i].as_str());
        i = i + 1;
    }
    out
}

/// The canonical text of the components `cs[from..]`.
fn render_from(cs: &Vec<String>, from: usize) -> (r: String)
    requires
        from <= cs@.len(),
    ensures
        r@ == render(views(cs@).skip(from as int)),
{
    let ghost rest = views(cs@).skip(from as int);
    assert(rest =~= views(cs@).subrange(from as int, cs@.len() as int));
    if from < cs.len() && cs[from].as_str().unicode_len() == 1 && cs[from].as_str().get_char(0) == '/' {
        assert(rest[0] =~= seq!['/']);
        assert(rest.skip(1) =~= views(cs@).subrange(from + 1, cs@.len() as int));
        let mut out = "/".to_owned();
        proof {
            reveal_strlit("/");
        }
        let tail = join_from(cs, from + 1);
        out.append(tail.as_str());
        out
    } else {
        proof {
            if from < cs@.len() && rest[0] == seq!['/'] {
                assert(cs@[from as int]@ == rest[0]);
                assert(cs@[from as int]@[0] == '/');
            }
        }
        join_from(cs, from)
    }
}

fn join_path(mount: &str, record: &str) -> (r: String)
    ensures
        r@ == join_spec(mount@, record@),
{
    let rl = record.unicode_len();
    if rl > 0 && record.get_char(0) == '/' {
        return record.to_owned();
    }
    let ml = mount.unicode_len();
    if ml == 0 {
        return record.to_owned();
    }
    let mut joined = mount.to_owned();
    if mount.get_char(ml - 1) != '/' {
        proof {
            reveal_strlit("/");
        }
        joined.append("/");
    }
    joined.append(record);
    joined
}

/// Joins `record_path` to `mount_point` as a filesystem path and strips the
/// components of `containment_prefix` from the front of the result, failing
/// when the joined path does not begin with those components. The result is
/// the canonical text of the components that remain.
pub fn normalize(mount_point: &str, record_path: &str, containment_prefix: &str) -> (r: Result<
    String,
    PathError,
>)
    ensures
        match r {
            Ok(s) => normalize_spec(mount_point@, record_path@, containment_prefix@) == Some(s@),
            Err(e) => {
                &&& normalize_spec(mount_point@, record_path@, containment_prefix@) is None
                &&& e matches PathError::PrefixMismatch { mount_point: m, record_path: p }
                &&& m@ == mount_point@
                &&& p@ == record_path@
            },
        },
{
    let joined = join_path(mount_point, record_path);
    let jc = components_of(joined.as_str());
    let pc = components_of(containment_prefix);
    let k = pc.len();
    let mut same = k <= jc.len();
    if same {
        let mut i: usize = 0;
        while i < k
            invariant
                k == pc@.len(),
                k <= jc@.len(),
                i <= k,
                same == (forall|j: int| 0 <= j < i ==> jc@[j]@ == pc@[j]@),
            decreases k - i,
        {
            if jc[i] != pc[i] {
                same = false;
            }
            i = i + 1;
        }
        proof {
            let c = views(jc@);
            let kk = views(pc@);
            if same {
                assert(c.subrange(0, k as int) =~= kk);
            } else {
                assert(c.subrange(0, k as int) != kk) by {
                    let j = choose|j: int| 0 <= j < k && jc@[j]@ != pc@[j]@;
                    assert(c.subrange(0, k as int)[j] == jc@[j]@);
                }
            }
        }
    }
    if same {
        Ok(render_from(&jc, k))
    } else {
        Err(
            PathError::PrefixMismatch {
                mount_point: mount_point.to_owned(),
                record_path: record_path.to_owned(),
            },
        )
    }
}

/// A component that a path's text gives back as itself: not empty, not `.`,
/// and free of separators.
pub open spec fn is_plain(c: Seq<char>) -> bool {
    !is_skipped(c) && !c.contains('/')
}

proof fn lemma_segments_extend(z: Seq<char>, y: Seq<char>)
    requires
        !y.contains('/'),
    ensures
        segments(z + y) == segments(z).update(
            segments(z).len() - 1,
            segments(z).last() + y,
        ),
        segments(z + y).len() == segments(z).len(),
    decreases y.len(),
{
    lemma_segments_len(z);
    if y.len() == 0 {
        assert(z + y =~= z);
        assert(segments(z).last() + y =~= segments(z).last());
        assert(segments(z).update(segments(z).len() - 1, segments(z).last()) =~= segments(z));
    } else {
        let y0 = y.drop_last();
        assert(!y0.contains('/')) by {
            if y0.contains('/') {
                let j = choose|j: int| 0 <= j < y0.len() && y0[j] == '/';
                assert(y[j] == '/');
            }
        }
        lemma_segments_extend(z, y0);
        assert((z + y).drop_last() =~= z + y0);
        assert((z + y).last() == y.last());
        assert(y.last() != '/');
        let s0 = segments(z + y0);
        assert(s0.last() == segments(z).last() + y0);
        assert((segments(z).last() + y0).push(y.last()) =~= segments(z).last() + y);
        assert(s0.update(s0.len() - 1, s0.last().push(y.last())) =~= segments(z).update(
            segments(z).len() - 1,
            segments(z).last() + y,
        ));
    }
}

proof fn lemma_segments_of_join(cs: Seq<Seq<char>>)
    requires
        cs.len() > 0,
        forall|j: int| 0 <= j < cs.len() ==> is_plain(#[trigger] cs[j]),
    ensures
        segments(join_components(cs)) == cs,
        join_components(cs).len() >= cs[0].len(),
        join_components(cs).subrange(0, cs[0].len() as int) == cs[0],
    decreases cs.len(),
{
    assert(is_plain(cs[0]));
    if cs.len() == 1 {
        lemma_segments_extend(Seq::empty(), cs[0]);
        assert(Seq::<char>::empty() + cs[0] =~= cs[0]);
        assert(segments(Seq::<char>::empty()) == seq![Seq::<char>::empty()]);
        assert(Seq::<char>::empty() + cs[0] =~= cs[0]);
        assert(seq![Seq::<char>::empty()].update(0, Seq::<char>::empty() + cs[0]) =~= cs);
        assert(cs[0].subrange(0, cs[0].len() as int) =~= cs[0]);
    } else {
        let init = cs.drop_last();
        assert forall|j: int| 0 <= j < init.len() implies is_plain(#[trigger] init[j]) by {
            assert(init[j] == cs[j]);
        }
        lemma_segments_of_join(init);
        let x = join_components(init);
        let sep = x + seq!['/'];
        assert(sep.drop_last() =~= x);
        assert(segments(sep) == segments(x).push(Seq::empty()));
        assert(is_plain(cs.last()));
        lemma_segments_extend(sep, cs.last());
        assert(segments(x).push(Seq::<char>::empty()).update(init.len() as int, Seq::<char>::empty() + cs.last())
            =~= cs) by {
            assert(Seq::<char>::empty() + cs.last() =~= cs.last());
        }
        assert(join_components(cs) == sep + cs.last());
        assert(join_components(cs).subrange(0, cs[0].len() as int) =~= x.subrange(
            0,
            cs[0].len() as int,
        ));
    }
}

proof fn lemma_kept_plain(cs: Seq<Seq<char>>)
    requires
        forall|j: int| 0 <= j < cs.len() ==> is_plain(#[trigger] cs[j]),
    ensures
        kept(cs) == cs,
    decreases cs.len(),
{
    if cs.len() > 0 {
        let init = cs.drop_last();
        assert forall|j: int| 0 <= j < init.len() implies is_plain(#[trigger] init[j]) by {
            assert(init[j] == cs[j]);
        }
        lemma_kept_plain(init);
        assert(is_plain(cs[cs.len() - 1]));
        assert(init.push(cs.last()) =~= cs);
    }
}

proof fn lemma_segments_no_separator(p: Seq<char>)
    ensures
        forall|j: int| 0 <= j < segments(p).len() ==> !(#[trigger] segments(p)[j]).contains('/'),
    decreases p.len(),
{
    lemma_segments_len(p);
    if p.len() > 0 {
        lemma_segments_no_separator(p.drop_last());
        lemma_segments_len(p.drop_last());
        let s0 = segments(p.drop_last());
        if p.last() != '/' {
            let l = s0.last().push(p.last());
            assert(!l.contains('/')) by {
                if l.contains('/') {
                    let j = choose|j: int| 0 <= j < l.len() && l[j] == '/';
                    if j < s0.last().len() {
                        assert(s0.last()[j] == '/');
                        assert(s0.last().contains('/'));
                    }
                }
            }
        } else {
            assert forall|j: int| 0 <= j < segments(p).len() implies !(
            #[trigger] segments(p)[j]).contains('/') by {
                if j < s0.len() {
                    assert(segments(p)[j] == s0[j]);
                } else {
                    assert(segments(p)[j] =~= Seq::<char>::empty());
                }
            }
        }
    }
}

proof fn lemma_kept_plain_of(s: Seq<Seq<char>>)
    requires
        forall|j: int| 0 <= j < s.len() ==> !(#[trigger] s[j]).contains('/'),
    ensures
        forall|j: int| 0 <= j < kept(s).len() ==> is_plain(#[trigger] kept(s)[j]),
    decreases s.len(),
{
    if s.len() > 0 {
        let init = s.drop_last();
        assert forall|j: int| 0 <= j < init.len() implies !(#[trigger] init[j]).contains('/') by {
            assert(init[j] == s[j]);
        }
        lemma_kept_plain_of(init);
        assert(!s[s.len() - 1].contains('/'));
        let k0 = kept(init);
        if !is_skipped(s.last()) {
            assert forall|j: int| 0 <= j < kept(s).len() implies is_plain(#[trigger] kept(s)[j]) by {
                if j < k0.len() {
                    assert(kept(s)[j] == k0[j]);
                } else {
                    assert(kept(s)[j] == s.last());
                }
            }
        }
    }
}

/// The components of the canonical text of plain components are those
/// components.
proof fn lemma_components_of_render(cs: Seq<Seq<char>>)
    requires
        forall|j: int| 0 <= j < cs.len() ==> is_plain(#[trigger] cs[j]),
    ensures
        components(render(cs)) == cs,
{
    if cs.len() == 0 {
        let e = Seq::<char>::empty();
        assert(render(cs) == e);
        assert(segments(e) == seq![e]);
        assert(seq![e].drop_last() =~= Seq::<Seq<char>>::empty());
        assert(kept(seq![e]) == kept(Seq::<Seq<char>>::empty()));
        assert(e != seq!['.']);
        assert(components(e) =~= cs);
    } else {
        assert(is_plain(cs[0]));
        assert(cs[0] != seq!['/']) by {
            if cs[0] == seq!['/'] {
                assert(cs[0][0] == '/');
            }
        }
        lemma_segments_of_join(cs);
        lemma_kept_plain(cs);
        let p = join_components(cs);
        assert(p[0] == cs[0][0]) by {
            assert(p.subrange(0, cs[0].len() as int)[0] == p[0]);
        }
        assert(cs[0][0] != '/') by {
            if cs[0][0] == '/' {
                assert(cs[0].contains('/'));
            }
        }
        assert(components(p) =~= cs);
    }
}

/// Law of normalization: a record whose joined path lies under the prefix
/// normalizes, and one whose joined path does not fails; and, for a prefix
/// with components that the joined path does not carry twice in a row, the
/// normalized path does not itself begin with the prefix.
pub proof fn lemma_normalize_strips_prefix(mount: Seq<char>, record: Seq<char>, pre: Seq<char>)
    ensures
        path_starts_with(join_spec(mount, record), pre) <==> normalize_spec(mount, record, pre) is Some,
        ({
            let c = components(join_spec(mount, record));
            let k = components(pre).len();
            k > 0 && !(c.len() >= 2 * k && c.subrange(k as int, 2 * k as int) == components(pre))
                ==> match normalize_spec(mount, record, pre) {
                Some(out) => !path_starts_with(out, pre),
                None => true,
            }
        }),
{
    let joined = join_spec(mount, record);
    let c = components(joined);
    let k = components(pre).len();
    if k > 0 && path_starts_with(joined, pre) {
        let rest = c.skip(k as int);
        lemma_segments_no_separator(joined);
        lemma_kept_plain_of(segments(joined));
        let kp = kept(segments(joined));
        let head_len = c.len() - kp.len();
        assert(head_len <= 1);
        assert forall|j: int| 0 <= j < rest.len() implies is_plain(#[trigger] rest[j]) by {
            assert(rest[j] == c[j + k]);
            assert(c[j + k] == kp[j + k - head_len]);
        }
        lemma_components_of_render(rest);
        if path_starts_with(strip_spec(joined, pre), pre) {
            assert(c.subrange(k as int, 2 * k as int) =~= rest.subrange(0, k as int));
        }
    }
}

/// Position of the last `c` in `s`, or -1.
pub open spec fn last_index_of(s: Seq<char>, c: char) -> int
    decreases s.len(),
{
    if s.len() == 0 {
        -1
    } else if s.last() == c {
        s.len() - 1
    } else {
        last_index_of(s.drop_last(), c)
    }
}

proof fn lemma_last_index_bounds(s: Seq<char>, c: char)
    ensures
        -1 <= last_index_of(s, c) < s.len(),
        last_index_of(s, c) >= 0 ==> s[last_index_of(s, c)] == c,
    decreases s.len(),
{
    if s.len() > 0 && s.last() != c {
        lemma_last_index_bounds(s.drop_last(), c);
    }
}

fn find_last_end(s: &str, c: char) -> (r: usize)
    ensures
        r == last_index_of(s@, c) + 1,
{
    let n = s.unicode_len();
    let mut i: usize = n;
    assert(s@.subrange(0, n as int) =~= s@);
    while i > 0
        invariant
            n == s@.len(),
            i <= n,
            last_index_of(s@, c) == last_index_of(s@.subrange(0, i as int), c),
        decreases i,
    {
        let ghost sub = s@.subrange(0, i as int);
        if s.get_char(i - 1) == c {
            return i;
        }
        assert(sub.drop_last() =~= s@.subrange(0, i - 1));
        i = i - 1;
    }
    assert(s@.subrange(0, 0).len() == 0);
    0
}

/// The last component of a path: what follows its last separator.
pub open spec fn file_name_of(p: Seq<char>) -> Seq<char> {
    let t = trim_tail(p);
    t.subrange(last_index_of(t, '/') + 1, t.len() as int)
}

/// The path without its trailing separators and trailing `.` components,
/// which name no file of their own.
pub open spec fn trim_tail(p: Seq<char>) -> Seq<char>
    decreases p.len(),
{
    if p.len() == 0 {
        p
    } else if p.last() == '/' {
        trim_tail(p.drop_last())
    } else if p.last() == '.' && (p.len() == 1 || p[p.len() - 2] == '/') {
        trim_tail(p.drop_last())
    } else {
        p
    }
}

/// `s` ends with `suffix`.
pub open spec fn has_suffix(s: Seq<char>, suffix: Seq<char>) -> bool {
    suffix.len() <= s.len() && s.subrange(s.len() - suffix.len(), s.len() as int) == suffix
}

/// Length of `trim_tail(s)`: `s` without its trailing separators and
/// trailing `.` components.
fn trimmed_len(s: &str) -> (r: usize)
    ensures
        r <= s@.len(),
        trim_tail(s@) == s@.subrange(0, r as int),
{
    let n = s.unicode_len();
    let mut i: usize = n;
    assert(s@.subrange(0, n as int) =~= s@);
    while i > 0
        invariant
            n == s@.len(),
            i <= n,
            trim_tail(s@) == trim_tail(s@.subrange(0, i as int)),
        decreases i,
    {
        let ghost sub = s@.subrange(0, i as int);
        let c = s.get_char(i - 1);
        let lone_dot = c == '.' && (i == 1 || s.get_char(i - 2) == '/');
        if c != '/' && !lone_dot {
            return i;
        }
        assert(sub.drop_last() =~= s@.subrange(0, i - 1));
        i = i - 1;
    }
    0
}

fn ends_with_str(s: &str, suffix: &str) -> (r: bool)
    ensures
        r == has_suffix(s@, suffix@),
{
    let n = s.unicode_len();
    let k = suffix.unicode_len();
    if k > n {
        return false;
    }
    let mut i: usize = 0;
    while i < k
        invariant
            k <= n,
            n == s@.len(),
            k == suffix@.len(),
            i <= k,
            forall|j: int| 0 <= j < i ==> s@[n - k + j] == suffix@[j],
        decreases k - i,
    {
        if s.get_char(n - k + i) != suffix.get_char(i) {
            assert(s@.subrange(n - k, n as int)[i as int] != suffix@[i as int]);
            return false;
        }
        i = i + 1;
    }
    assert(s@.subrange(n - k, n as int) =~= suffix@);
    true
}

/// A path names a file when its last component is neither empty, `.` nor `..`.
pub open spec fn has_file_name(p: Seq<char>) -> bool {
    let name = file_name_of(p);
    name.len() > 0 && name != seq!['.'] && name != seq!['.', '.']
}

/// The extension: what follows the last dot of the file name, where that dot
/// is not the name's first character.
pub open spec fn extension_of(p: Seq<char>) -> Option<Seq<char>> {
    let name = file_name_of(p);
    let dot = last_index_of(name, '.');
    if has_file_name(p) && dot > 0 {
        Some(name.subrange(dot + 1, name.len() as int))
    } else {
        None
    }
}

/// The stem: the file name without its extension and that extension's dot.
pub open spec fn stem_of(p: Seq<char>) -> Option<Seq<char>> {
    let name = file_name_of(p);
    let dot = last_index_of(name, '.');
    if !has_file_name(p) {
        None
    } else if dot > 0 {
        Some(name.subrange(0, dot))
    } else {
        Some(name)
    }
}

/// The path with the extension's characters removed from its end (the dot
/// before them stays). A path that does not end with its extension (one with
/// a trailing separator) stays whole.
pub open spec fn without_extension_of(p: Seq<char>) -> Seq<char> {
    match extension_of(p) {
        Some(e) => if has_suffix(p, e) {
            p.subrange(0, p.len() - e.len())
        } else {
            p
        },
        None => p,
    }
}

/// One indexed asset path of a file, with the parts that queries search by.
#[derive(Debug)]
pub struct PathEntry {
    pub file_id: u64,
    pub path: String,
    pub path_without_extension: String,
    pub extension: Option<String>,
    pub stem: Option<String>,
}

pub open spec fn opt_view(o: Option<String>) -> Option<Seq<char>> {
    match o {
        Some(s) => Some(s@),
        None => None,
    }
}

/// `e` is the entry of `path` for file `file_id`.
pub open spec fn entry_of(e: PathEntry, file_id: u64, path: Seq<char>) -> bool {
    &&& e.file_id == file_id
    &&& e.path@ == path
    &&& e.path_without_extension@ == without_extension_of(path)
    &&& opt_view(e.extension) == extension_of(path)
    &&& opt_view(e.stem) == stem_of(path)
}

/// Splits `path` into the parts stored beside it: its extension, its stem and
/// the path without the extension.
pub fn path_entry(file_id: u64, path: &str) -> (r: PathEntry)
    ensures
        entry_of(r, file_id, path@),
{
    let n = path.unicode_len();
    let tl = trimmed_len(path);
    let trimmed = path.substring_char(0, tl);
    let start = find_last_end(trimmed, '/');
    proof {
        lemma_last_index_bounds(trimmed@, '/');
    }
    let name = trimmed.substring_char(start, tl);
    let nl = tl - start;
    assert(name@ == file_name_of(path@));
    proof {
        reveal_strlit(".");
        reveal_strlit("..");
    }
    let named = nl > 0 && !(nl == 1 && name.get_char(0) == '.') && !(nl == 2 && name.get_char(0)
        == '.' && name.get_char(1) == '.');
    assert(named == has_file_name(path@)) by {
        if nl == 1 && name@ != seq!['.'] {
            assert(name@[0] != '.' || name@ =~= seq!['.']);
        }
        if nl == 2 && name@ != seq!['.', '.'] {
            assert(name@[0] != '.' || name@[1] != '.' || name@ =~= seq!['.', '.']);
        }
    }
    let dot_end = find_last_end(name, '.');
    proof {
        lemma_last_index_bounds(name@, '.');
    }
    let (extension, stem) = if !named {
        (None, None)
    } else if dot_end > 1 {
        let d = dot_end - 1;
        (Some(name.substring_char(d + 1, nl).to_owned()), Some(name.substring_char(0, d).to_owned()))
    } else {
        (None, Some(name.to_owned()))
    };
    let path_without_extension = match &extension {
        Some(e) => {
            if ends_with_str(path, e.as_str()) {
                let el = e.as_str().unicode_len();
                path.substring_char(0, n - el).to_owned()
            } else {
                path.to_owned()
            }
        },
        None => path.to_owned(),
    };
    PathEntry { file_id, path: path.to_owned(), path_without_extension, extension, stem }
}

} // verus!
