//! The diff engine: line-level edit scripts between a snapshot's text and a
//! file's current text.
//!
//! The snapshot is the "before" side and the current text the "after" side,
//! in the returned script and in the rendering alike: an added run is one
//! the current text has and the snapshot lacks, a removed run the reverse.
use vstd::prelude::*;

verus! {

use vstd::string::StrSliceExecFns;
use vstd::string::StringExecFns;

/// One chunk of an edit script: a run of lines that both texts share, a run
/// only the current text has (added), or a run only the snapshot has
/// (removed). A chunk's text is the run's lines joined with newlines.
#[derive(Debug, Clone, PartialEq, Eq)]
pub enum Difference {
    Same(String),
    Add(String),
    Rem(String),
}

/// A single newline.
pub open spec fn nl() -> Seq<char> {
    seq!['\n']
}

/// Lines joined with a newline between each adjacent pair. The inverse of
/// splitting on newlines: every text is the join of its lines.
pub open spec fn join_lines(parts: Seq<Seq<char>>) -> Seq<char>
    decreases parts.len(),
{
    if parts.len() == 0 {
        Seq::empty()
    } else if parts.len() == 1 {
        parts[0]
    } else {
        join_lines(parts.drop_last()) + nl() + parts.last()
    }
}

/// The chunk texts that make up the snapshot ("before") side of a script:
/// the unchanged and the removed runs, in order.
pub open spec fn source_texts(script: Seq<Difference>) -> Seq<Seq<char>>
    decreases script.len(),
{
    if script.len() == 0 {
        Seq::empty()
    } else {
        let rest = source_texts(script.drop_last());
        match script.last() {
            Difference::Same(t) => rest.push(t@),
            Difference::Rem(t) => rest.push(t@),
            Difference::Add(_) => rest,
        }
    }
}

/// The chunk texts that make up the current ("after") side of a script:
/// the unchanged and the added runs, in order.
pub open spec fn target_texts(script: Seq<Difference>) -> Seq<Seq<char>>
    decreases script.len(),
{
    if script.len() == 0 {
        Seq::empty()
    } else {
        let rest = target_texts(script.drop_last());
        match script.last() {
            Difference::Same(t) => rest.push(t@),
            Difference::Add(t) => rest.push(t@),
            Difference::Rem(_) => rest,
        }
    }
}

/// An empty edit script: nothing added, nothing removed.
pub open spec fn all_same(script: Seq<Difference>) -> bool {
    forall|i: int| 0 <= i < script.len() ==> script[i] is Same
}

/// The script transforms the snapshot text into the current text: its
/// unchanged and removed chunks joined together are exactly the snapshot
/// text, and its unchanged and added chunks joined together are exactly the
/// current text.
pub open spec fn valid_script(script: Seq<Difference>, snapshot: Seq<char>, current: Seq<char>) -> bool {
    join_lines(source_texts(script)) == snapshot && join_lines(target_texts(script)) == current
}

proof fn lemma_source_texts_push(script: Seq<Difference>, d: Difference)
    ensures
        source_texts(script.push(d)) == (match d {
            Difference::Same(t) => source_texts(script).push(t@),
            Difference::Rem(t) => source_texts(script).push(t@),
            Difference::Add(_) => source_texts(script),
        }),
{
    assert(script.push(d).drop_last() =~= script);
    assert(script.push(d).last() == d);
}

proof fn lemma_target_texts_push(script: Seq<Difference>, d: Difference)
    ensures
        target_texts(script.push(d)) == (match d {
            Difference::Same(t) => target_texts(script).push(t@),
            Difference::Add(t) => target_texts(script).push(t@),
            Difference::Rem(_) => target_texts(script),
        }),
{
    assert(script.push(d).drop_last() =~= script);
    assert(script.push(d).last() == d);
}

proof fn lemma_join_push(parts: Seq<Seq<char>>, p: Seq<char>)
    ensures
        join_lines(parts.push(p)) == if parts.len() == 0 {
            p
        } else {
            join_lines(parts) + nl() + p
        },
{
    assert(parts.push(p).drop_last() =~= parts);
    assert(parts.push(p).last() == p);
    if parts.len() == 0 {
        assert(parts.push(p)[0] == p);
    }
}

proof fn lemma_join_concat(a: Seq<Seq<char>>, b: Seq<Seq<char>>)
    requires
        a.len() > 0,
        b.len() > 0,
    ensures
        join_lines(a + b) == join_lines(a) + nl() + join_lines(b),
    decreases b.len(),
{
    if b.len() == 1 {
        assert(a + b =~= a.push(b[0]));
        lemma_join_push(a, b[0]);
    } else {
        assert((a + b).drop_last() =~= a + b.drop_last());
        assert((a + b).last() == b.last());
        lemma_join_concat(a, b.drop_last());
        assert(join_lines(a) + nl() + join_lines(b) =~= (join_lines(a) + nl() + join_lines(
            b.drop_last(),
        )) + nl() + b.last());
    }
}

/// Law: round trip — a valid edit script reconstructs both texts exactly:
/// joining its unchanged and removed chunks gives the snapshot text back,
/// and joining its unchanged and added chunks gives the current text back,
/// so applying the script to the snapshot's text yields the current text
/// and the reverse application yields the snapshot's.
pub proof fn lemma_round_trip(script: Seq<Difference>, snapshot: Seq<char>, current: Seq<char>)
    requires
        valid_script(script, snapshot, current),
    ensures
        join_lines(source_texts(script)) == snapshot,
        join_lines(target_texts(script)) == current,
{
}

/// Law: an empty edit script has equal sides — a script with nothing added
/// and nothing removed can only relate a text to itself.
pub proof fn lemma_all_same_sides(script: Seq<Difference>)
    requires
        all_same(script),
    ensures
        source_texts(script) == target_texts(script),
    decreases script.len(),
{
    if script.len() > 0 {
        assert(script[script.len() - 1] is Same);
        assert(forall|i: int|
            0 <= i < script.drop_last().len() ==> #[trigger] script.drop_last()[i]
                == script[i]);
        lemma_all_same_sides(script.drop_last());
    }
}

/// Splits a text into its lines: the runs between newlines, with the
/// newlines themselves dropped. Splitting is exact: joining the returned
/// lines with newlines gives the text back, and no returned line holds a
/// newline. A text with no newline at all is one single line, so the result
/// always holds at least one line (an empty text is one empty line).
pub fn split_lines(text: &String) -> (r: Vec<String>)
    ensures
        r.deep_view().len() >= 1,
        join_lines(r.deep_view()) == text@,
        forall|i: int| 0 <= i < r.deep_view().len() ==> !r.deep_view()[i].contains('\n'),
{
    let s = text.as_str();
    let len = s.unicode_len();
    let mut out: Vec<String> = Vec::new();
    let mut start: usize = 0;
    let mut i: usize = 0;
    while i < len
        invariant
            s@ == text@,
            len == text@.len(),
            start <= i <= len,
            out@.len() == 0 ==> start == 0,
            out@.len() > 0 ==> join_lines(out.deep_view()) + nl() == text@.take(start as int),
            forall|j: int| start <= j < i ==> text@[j] != '\n',
            forall|j: int| 0 <= j < out.deep_view().len() ==> !out.deep_view()[j].contains('\n'),
        decreases len - i,
    {
        if s.get_char(i) == '\n' {
            let line = s.substring_char(start, i).to_owned();
            proof {
                let ghost dv = out.deep_view();
                let ghost lv = line@;
                assert(lv == text@.subrange(start as int, i as int));
                assert(forall|j: int| 0 <= j < lv.len() ==> lv[j] != '\n');
                assert(!lv.contains('\n'));
                lemma_join_push(dv, lv);
                if dv.len() == 0 {
                    assert(text@.take(i as int) =~= lv);
                } else {
                    assert((join_lines(dv) + nl()) + lv =~= join_lines(dv) + nl() + lv);
                    assert(join_lines(dv) + nl() + lv =~= text@.take(i as int));
                }
                assert(text@.take(i as int).push('\n') =~= text@.take(i + 1));
            }
            let ghost prev = out.deep_view();
            out.push(line);
            proof {
                assert(out.deep_view() =~= prev.push(line@));
                assert(join_lines(out.deep_view()) + nl() =~= text@.take(i + 1));
            }
            start = i + 1;
        }
        i += 1;
    }
    let line = s.substring_char(start, len).to_owned();
    let ghost prev = out.deep_view();
    out.push(line);
    proof {
        let lv = line@;
        assert(lv == text@.subrange(start as int, len as int));
        assert(forall|j: int| 0 <= j < lv.len() ==> lv[j] != '\n');
        assert(!lv.contains('\n'));
        assert(out.deep_view() =~= prev.push(lv));
        lemma_join_push(prev, lv);
        if prev.len() == 0 {
            assert(text@.take(0) =~= Seq::<char>::empty());
            assert(lv =~= text@);
        } else {
            assert((join_lines(prev) + nl()) + lv =~= join_lines(prev) + nl() + lv);
            assert(join_lines(prev) + nl() + lv =~= text@);
        }
    }
    out
}

/// Joins the lines `from..to` (at least one) back into one text.
fn join_range(lines: &Vec<String>, from: usize, to: usize) -> (r: String)
    requires
        from < to <= lines@.len(),
    ensures
        r@ == join_lines(lines.deep_view().subrange(from as int, to as int)),
{
    let ghost dv = lines.deep_view();
    proof {
        assert(dv.len() == lines@.len());
        assert(dv[from as int] == lines@[from as int]@);
        assert(dv.subrange(from as int, from + 1) =~= Seq::<Seq<char>>::empty().push(
            dv[from as int],
        ));
        lemma_join_push(Seq::<Seq<char>>::empty(), dv[from as int]);
    }
    let mut r = lines[from].clone();
    let mut i = from + 1;
    while i < to
        invariant
            from < i <= to <= lines@.len(),
            dv == lines.deep_view(),
            dv.len() == lines@.len(),
            r@ == join_lines(dv.subrange(from as int, i as int)),
        decreases to - i,
    {
        r.append("\n");
        r.append(lines[i].as_str());
        proof {
            reveal_strlit("\n");
            assert("\n"@ =~= nl());
            assert(dv[i as int] == lines@[i as int]@);
            lemma_join_push(dv.subrange(from as int, i as int), dv[i as int]);
            assert(dv.subrange(from as int, i + 1) =~= dv.subrange(from as int, i as int).push(
                dv[i as int],
            ));
            assert(r@ =~= join_lines(dv.subrange(from as int, i + 1)));
        }
        i += 1;
    }
    r
}

/// The number of leading lines the two listings share.
fn common_prefix_len(a: &Vec<String>, b: &Vec<String>) -> (p: usize)
    ensures
        p <= a@.len(),
        p <= b@.len(),
        forall|i: int| 0 <= i < p ==> a.deep_view()[i] == b.deep_view()[i],
{
    let mut p: usize = 0;
    while p < a.len() && p < b.len()
        invariant
            p <= a@.len(),
            p <= b@.len(),
            forall|i: int| 0 <= i < p ==> a.deep_view()[i] == b.deep_view()[i],
        decreases a@.len() - p,
    {
        proof {
            assert(a.deep_view()[p as int] == a@[p as int]@);
            assert(b.deep_view()[p as int] == b@[p as int]@);
        }
        if !(a[p] == b[p]) {
            return p;
        }
        p += 1;
    }
    p
}

/// The number of trailing lines the two listings share, beyond the first
/// `p` lines already matched.
fn common_suffix_len(a: &Vec<String>, b: &Vec<String>, p: usize) -> (q: usize)
    requires
        p <= a@.len(),
        p <= b@.len(),
    ensures
        p + q <= a@.len(),
        p + q <= b@.len(),
        forall|j: int|
            a@.len() - q <= j < a@.len() ==> #[trigger] a.deep_view()[j] == b.deep_view()[j - a@.len() + b@.len()],
{
    let mut q: usize = 0;
    while q < a.len() - p && q < b.len() - p
        invariant
            p + q <= a@.len(),
            p + q <= b@.len(),
            forall|j: int|
                a@.len() - q <= j < a@.len() ==> #[trigger] a.deep_view()[j] == b.deep_view()[j - a@.len() + b@.len()],
        decreases a@.len() - p - q,
    {
        proof {
            assert(a.deep_view()[a@.len() - 1 - q] == a@[a@.len() - 1 - q]@);
            assert(b.deep_view()[b@.len() - 1 - q] == b@[b@.len() - 1 - q]@);
        }
        if !(a[a.len() - 1 - q] == b[b.len() - 1 - q]) {
            return q;
        }
        q += 1;
    }
    q
}

/// The chunk texts of up to three segments, skipping the empty ones.
spec fn opt_texts(a: Seq<Seq<char>>, b: Seq<Seq<char>>, c: Seq<Seq<char>>) -> Seq<Seq<char>> {
    let s0 = Seq::<Seq<char>>::empty();
    let s1 = if a.len() > 0 {
        s0.push(join_lines(a))
    } else {
        s0
    };
    let s2 = if b.len() > 0 {
        s1.push(join_lines(b))
    } else {
        s1
    };
    if c.len() > 0 {
        s2.push(join_lines(c))
    } else {
        s2
    }
}

proof fn lemma_join_opt(a: Seq<Seq<char>>, b: Seq<Seq<char>>, c: Seq<Seq<char>>)
    requires
        a.len() + b.len() + c.len() > 0,
    ensures
        join_lines(opt_texts(a, b, c)) == join_lines(a + b + c),
{
    let e = Seq::<Seq<char>>::empty();
    let ja = join_lines(a);
    let jb = join_lines(b);
    let jc = join_lines(c);
    if a.len() > 0 && b.len() > 0 && c.len() > 0 {
        lemma_join_concat(a, b);
        lemma_join_concat(a + b, c);
        assert((a + b) + c =~= a + b + c);
        lemma_join_push(e, ja);
        lemma_join_push(e.push(ja), jb);
        lemma_join_push(e.push(ja).push(jb), jc);
        assert(join_lines(opt_texts(a, b, c)) =~= join_lines(a + b + c));
    } else if a.len() > 0 && b.len() > 0 {
        assert(a + b + c =~= a + b);
        lemma_join_concat(a, b);
        lemma_join_push(e, ja);
        lemma_join_push(e.push(ja), jb);
        assert(join_lines(opt_texts(a, b, c)) =~= join_lines(a + b + c));
    } else if a.len() > 0 && c.len() > 0 {
        assert(a + b + c =~= a + c);
        lemma_join_concat(a, c);
        lemma_join_push(e, ja);
        lemma_join_push(e.push(ja), jc);
        assert(join_lines(opt_texts(a, b, c)) =~= join_lines(a + b + c));
    } else if b.len() > 0 && c.len() > 0 {
        assert(a + b + c =~= b + c);
        lemma_join_concat(b, c);
        lemma_join_push(e, jb);
        lemma_join_push(e.push(jb), jc);
        assert(join_lines(opt_texts(a, b, c)) =~= join_lines(a + b + c));
    } else if a.len() > 0 {
        assert(a + b + c =~= a);
        lemma_join_push(e, ja);
        assert(join_lines(opt_texts(a, b, c)) =~= join_lines(a + b + c));
    } else if b.len() > 0 {
        assert(a + b + c =~= b);
        lemma_join_push(e, jb);
        assert(join_lines(opt_texts(a, b, c)) =~= join_lines(a + b + c));
    } else {
        assert(a + b + c =~= c);
        lemma_join_push(e, jc);
        assert(join_lines(opt_texts(a, b, c)) =~= join_lines(a + b + c));
    }
}

/// Builds a valid edit script from line listings that agree on their first
/// `p` and last `q` lines: the shared prefix, the snapshot-only middle as a
/// removal, the current-only middle as an addition, the shared suffix.
fn build_script(la: &Vec<String>, lb: &Vec<String>, p: usize, q: usize) -> (r: Vec<Difference>)
    requires
        p + q <= la@.len(),
        p + q <= lb@.len(),
        la.deep_view().len() >= 1,
        lb.deep_view().len() >= 1,
        forall|i: int| 0 <= i < p ==> la.deep_view()[i] == lb.deep_view()[i],
        forall|j: int|
            la@.len() - q <= j < la@.len() ==> #[trigger] la.deep_view()[j] == lb.deep_view()[j - la@.len() + lb@.len()],
    ensures
        valid_script(r@, join_lines(la.deep_view()), join_lines(lb.deep_view())),
{
    let ghost aa = la.deep_view();
    let ghost bb = lb.deep_view();
    let na = la.len();
    let nb = lb.len();
    let ghost pre_a = aa.take(p as int);
    let ghost mid_a = aa.subrange(p as int, na - q);
    let ghost suf_a = aa.subrange(na - q, na as int);
    let ghost pre_b = bb.take(p as int);
    let ghost mid_b = bb.subrange(p as int, nb - q);
    let ghost suf_b = bb.subrange(nb - q, nb as int);
    proof {
        assert(pre_a =~= pre_b);
        assert forall|j: int| 0 <= j < q implies suf_a[j] == suf_b[j] by {
            assert(aa[na - q + j] == bb[(na - q + j) - aa.len() + bb.len()]);
        }
        assert(suf_a =~= suf_b);
        assert(aa =~= pre_a + mid_a + suf_a);
        assert(bb =~= pre_b + mid_b + suf_b);
        assert(source_texts(Seq::<Difference>::empty()) =~= Seq::<Seq<char>>::empty());
        assert(target_texts(Seq::<Difference>::empty()) =~= Seq::<Seq<char>>::empty());
    }
    let mut script: Vec<Difference> = Vec::new();
    if p > 0 {
        let t = join_range(la, 0, p);
        proof {
            assert(aa.subrange(0, p as int) =~= pre_a);
        }
        let d = Difference::Same(t);
        proof {
            lemma_source_texts_push(script@, d);
            lemma_target_texts_push(script@, d);
        }
        script.push(d);
    }
    if na - q > p {
        let t = join_range(la, p, na - q);
        let d = Difference::Rem(t);
        proof {
            lemma_source_texts_push(script@, d);
            lemma_target_texts_push(script@, d);
        }
        script.push(d);
    }
    if nb - q > p {
        let t = join_range(lb, p, nb - q);
        let d = Difference::Add(t);
        proof {
            lemma_source_texts_push(script@, d);
            lemma_target_texts_push(script@, d);
        }
        script.push(d);
    }
    if q > 0 {
        let t = join_range(la, na - q, na);
        proof {
            assert(aa.subrange(na - q, na as int) =~= suf_a);
        }
        let d = Difference::Same(t);
        proof {
            lemma_source_texts_push(script@, d);
            lemma_target_texts_push(script@, d);
        }
        script.push(d);
    }
    proof {
        assert(source_texts(script@) == opt_texts(pre_a, mid_a, suf_a));
        assert(target_texts(script@) == opt_texts(pre_b, mid_b, suf_b));
        lemma_join_opt(pre_a, mid_a, suf_a);
        lemma_join_opt(pre_b, mid_b, suf_b);
    }
    script
}

/// Rebuilds the snapshot ("before") text a script describes: its unchanged
/// and removed chunks joined with newlines.
pub fn restore_snapshot(script: &Vec<Difference>) -> (r: String)
    ensures
        r@ == join_lines(source_texts(script@)),
{
    let mut r = String::new();
    let mut first: bool = true;
    let mut i: usize = 0;
    while i < script.len()
        invariant
            i <= script@.len(),
            first <==> source_texts(script@.take(i as int)).len() == 0,
            r@ == join_lines(source_texts(script@.take(i as int))),
        decreases script@.len() - i,
    {
        let ghost pre_texts = source_texts(script@.take(i as int));
        let ghost r_old = r@;
        match &script[i] {
            Difference::Same(t) => {
                if !first {
                    r.append("\n");
                }
                r.append(t.as_str());
                first = false;
            },
            Difference::Rem(t) => {
                if !first {
                    r.append("\n");
                }
                r.append(t.as_str());
                first = false;
            },
            Difference::Add(_) => {},
        }
        proof {
            reveal_strlit("\n");
            assert("\n"@ =~= nl());
            assert(script@.take(i + 1) =~= script@.take(i as int).push(script@[i as int]));
            lemma_source_texts_push(script@.take(i as int), script@[i as int]);
            match script@[i as int] {
                Difference::Same(t) => {
                    lemma_join_push(pre_texts, t@);
                    if pre_texts.len() > 0 {
                        assert(r@ =~= r_old + nl() + t@);
                    }
                },
                Difference::Rem(t) => {
                    lemma_join_push(pre_texts, t@);
                    if pre_texts.len() > 0 {
                        assert(r@ =~= r_old + nl() + t@);
                    }
                },
                Difference::Add(_) => {},
            }
        }
        i += 1;
    }
    proof {
        assert(script@.take(script@.len() as int) =~= script@);
    }
    r
}

/// Rebuilds the current ("after") text a script describes: its unchanged
/// and added chunks joined with newlines. This is what applying the script
/// to the snapshot text produces.
pub fn restore_current(script: &Vec<Difference>) -> (r: String)
    ensures
        r@ == join_lines(target_texts(script@)),
{
    let mut r = String::new();
    let mut first: bool = true;
    let mut i: usize = 0;
    while i < script.len()
        invariant
            i <= script@.len(),
            first <==> target_texts(script@.take(i as int)).len() == 0,
            r@ == join_lines(target_texts(script@.take(i as int))),
        decreases script@.len() - i,
    {
        let ghost pre_texts = target_texts(script@.take(i as int));
        let ghost r_old = r@;
        match &script[i] {
            Difference::Same(t) => {
                if !first {
                    r.append("\n");
                }
                r.append(t.as_str());
                first = false;
            },
            Difference::Add(t) => {
                if !first {
                    r.append("\n");
                }
                r.append(t.as_str());
                first = false;
            },
            Difference::Rem(_) => {},
        }
        proof {
            reveal_strlit("\n");
            assert("\n"@ =~= nl());
            assert(script@.take(i + 1) =~= script@.take(i as int).push(script@[i as int]));
            lemma_target_texts_push(script@.take(i as int), script@[i as int]);
            match script@[i as int] {
                Difference::Same(t) => {
                    lemma_join_push(pre_texts, t@);
                    if pre_texts.len() > 0 {
                        assert(r@ =~= r_old + nl() + t@);
                    }
                },
                Difference::Add(t) => {
                    lemma_join_push(pre_texts, t@);
                    if pre_texts.len() > 0 {
                        assert(r@ =~= r_old + nl() + t@);
                    }
                },
                Difference::Rem(_) => {},
            }
        }
        i += 1;
    }
    proof {
        assert(script@.take(script@.len() as int) =~= script@);
    }
    r
}

/// Relies on text_diff::diff, splitting on newlines: the edit distance it
/// returns is zero exactly when the two texts are equal — it reports
/// distance zero only when its first matching run already covers both
/// texts whole, and equal texts always yield that run. Nothing is assumed
/// about the returned changeset; the caller checks it against both texts.
#[verifier::external_body]
fn text_diff_lines(orig: &String, edit: &String) -> (r: (i32, Vec<Difference>))
    requires
        orig@.len() + edit@.len() < 0x4000_0000,
    ensures
        r.0 == 0 <==> orig@ == edit@,
{
    let (d, changes) = text_diff::diff(orig.as_str(), edit.as_str(), "\n");
    let mut script = Vec::new();
    for c in changes {
        script.push(match c {
            text_diff::Difference::Same(s) => Difference::Same(s),
            text_diff::Difference::Add(s) => Difference::Add(s),
            text_diff::Difference::Rem(s) => Difference::Rem(s),
        });
    }
    (d, script)
}

/// Computes the line-level edit script from the snapshot's text to the
/// current text, and an edit distance that is zero exactly when the two
/// texts are equal.
///
/// The script is always valid: joining its unchanged and removed chunks
/// gives back the snapshot text, joining its unchanged and added chunks
/// the current text — so applying the script reconstructs either side
/// exactly. The script is empty (all chunks unchanged) exactly when the
/// texts are equal. The changeset of the outside diff is checked against
/// both texts first; where it fails to account for every line (it drops a
/// shared trailing empty line), a prefix-and-suffix script computed here
/// takes its place.
pub fn compute_diff(snapshot: &String, current: &String) -> (r: (i32, Vec<Difference>))
    ensures
        valid_script(r.1@, snapshot@, current@),
        r.0 == 0 <==> snapshot@ == current@,
        all_same(r.1@) <==> snapshot@ == current@,
{
    if *snapshot == *current {
        let mut script: Vec<Difference> = Vec::new();
        let d = Difference::Same(snapshot.clone());
        proof {
            assert(source_texts(Seq::<Difference>::empty()) =~= Seq::<Seq<char>>::empty());
            assert(target_texts(Seq::<Difference>::empty()) =~= Seq::<Seq<char>>::empty());
            lemma_source_texts_push(script@, d);
            lemma_target_texts_push(script@, d);
            lemma_join_push(Seq::<Seq<char>>::empty(), snapshot@);
        }
        script.push(d);
        proof {
            assert(script@[0] is Same);
        }
        return (0, script);
    }
    let sl = snapshot.as_str().unicode_len();
    let cl = current.as_str().unicode_len();
    if sl < 0x2000_0000 && cl < 0x2000_0000 {
        let (d, script) = text_diff_lines(snapshot, current);
        let before = restore_snapshot(&script);
        let after = restore_current(&script);
        if before == *snapshot && after == *current {
            proof {
                if all_same(script@) {
                    lemma_all_same_sides(script@);
                    assert(false);
                }
            }
            return (d, script);
        }
    }
    let la = split_lines(snapshot);
    let lb = split_lines(current);
    let p = common_prefix_len(&la, &lb);
    let q = common_suffix_len(&la, &lb, p);
    let script = build_script(&la, &lb, p, q);
    let mid_a = la.len() - p - q;
    let mid_b = lb.len() - p - q;
    proof {
        if mid_a == 0 && mid_b == 0 {
            assert forall|i: int| 0 <= i < la.deep_view().len() implies la.deep_view()[i]
                == lb.deep_view()[i] by {
                if i >= p {
                    assert(la.deep_view()[i] == lb.deep_view()[i - la@.len() + lb@.len()]);
                }
            }
            assert(la.deep_view() =~= lb.deep_view());
            assert(false);
        }
        if all_same(script@) {
            lemma_all_same_sides(script@);
            assert(false);
        }
    }
    let d: i32 = if mid_a >= 0x4000_0000 || mid_b >= 0x4000_0000 {
        0x7FFF_FFFF
    } else {
        (mid_a + mid_b) as i32
    };
    (d, script)
}

/// The rendering of one chunk: two spaces before an unchanged run, `+ `
/// before an added run, `- ` before a removed run, a newline after each.
pub open spec fn render_chunk(d: Difference) -> Seq<char> {
    match d {
        Difference::Same(t) => "  "@ + t@ + nl(),
        Difference::Add(t) => "+ "@ + t@ + nl(),
        Difference::Rem(t) => "- "@ + t@ + nl(),
    }
}

/// The human-readable rendering of a script: its chunks rendered in order.
pub open spec fn render_spec(script: Seq<Difference>) -> Seq<char>
    decreases script.len(),
{
    if script.len() == 0 {
        Seq::empty()
    } else {
        render_spec(script.drop_last()) + render_chunk(script.last())
    }
}

proof fn lemma_render_push(script: Seq<Difference>, d: Difference)
    ensures
        render_spec(script.push(d)) == render_spec(script) + render_chunk(d),
{
    assert(script.push(d).drop_last() =~= script);
    assert(script.push(d).last() == d);
}

/// Renders a script for people, chunk by chunk, derived from the very
/// script that is returned to the caller so the two can never disagree.
pub fn render_diff(script: &Vec<Difference>) -> (r: String)
    ensures
        r@ == render_spec(script@),
{
    let mut r = String::new();
    let mut i: usize = 0;
    while i < script.len()
        invariant
            i <= script@.len(),
            r@ == render_spec(script@.take(i as int)),
        decreases script@.len() - i,
    {
        let ghost r_old = r@;
        match &script[i] {
            Difference::Same(t) => {
                r.append("  ");
                r.append(t.as_str());
                r.append("\n");
            },
            Difference::Add(t) => {
                r.append("+ ");
                r.append(t.as_str());
                r.append("\n");
            },
            Difference::Rem(t) => {
                r.append("- ");
                r.append(t.as_str());
                r.append("\n");
            },
        }
        proof {
            reveal_strlit("\n");
            assert("\n"@ =~= nl());
            assert(script@.take(i + 1) =~= script@.take(i as int).push(script@[i as int]));
            lemma_render_push(script@.take(i as int), script@[i as int]);
            assert(r@ =~= r_old + render_chunk(script@[i as int]));
        }
        i += 1;
    }
    proof {
        assert(script@.take(script@.len() as int) =~= script@);
    }
    r
}

} // verus!
