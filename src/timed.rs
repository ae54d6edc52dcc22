use vstd::prelude::*;

verus! {

/// A value that becomes available at virtual instant `at` (milliseconds).
#[derive(Clone, Copy, PartialEq, Eq, Debug)]
pub struct Timed<T> {
    pub at: u64,
    pub value: T,
}

/// The error a timed-out poll yields: no item arrived within the window.
#[derive(Clone, Copy, PartialEq, Eq, Debug)]
pub struct Elapsed;

/// A stream as seen on the virtual clock: its items in order, each with the instant at
/// which it becomes available, and the instant at which the stream reports `Done`.
pub struct TimedStream<T> {
    pub items: Vec<Timed<T>>,
    pub end: u64,
}

/// Availability instants never decrease, and no item comes after the end.
pub open spec fn timeline_wf<T>(s: Seq<Timed<T>>, end: u64) -> bool {
    &&& forall|i: int, j: int| 0 <= i <= j < s.len() ==> (#[trigger] s[i]).at <= (#[trigger] s[j]).at
    &&& forall|i: int| 0 <= i < s.len() ==> (#[trigger] s[i]).at <= end
}

/// The values of a timed sequence, in order.
pub open spec fn values_of<T>(s: Seq<Timed<T>>) -> Seq<T> {
    s.map_values(|x: Timed<T>| x.value)
}

pub open spec fn max_int(a: int, b: int) -> int {
    if a >= b { a } else { b }
}

impl<T> TimedStream<T> {
    pub open spec fn wf(&self) -> bool {
        timeline_wf(self.items@, self.end)
    }
}

// ---------------------------------------------------------------- throttle

/// `out` is `s` throttled to at least `interval` between yields: the first item is yielded
/// when it arrives; each later one when it arrives, but no sooner than `interval` after the
/// previous yield. Values keep their order.
pub open spec fn is_throttled<T>(s: Seq<Timed<T>>, interval: u64, out: Seq<Timed<T>>) -> bool {
    &&& out.len() == s.len()
    &&& forall|i: int| 0 <= i < s.len() ==> (#[trigger] out[i]).value == s[i].value
    &&& s.len() > 0 ==> out[0].at == s[0].at
    &&& forall|i: int|
        0 < i < s.len() ==> (#[trigger] out[i]).at == max_int(s[i].at as int, out[i - 1].at + interval)
}

/// Where a throttled stream ends: the inner end, but no sooner than `interval` after the last
/// yield.
pub open spec fn throttle_end<T>(out: Seq<Timed<T>>, end: u64, interval: u64) -> int {
    if out.len() == 0 {
        end as int
    } else {
        max_int(end as int, out.last().at + interval)
    }
}

/// Rate-limits `s`: successive yields are at least `interval` apart.
pub fn throttle<T>(s: TimedStream<T>, interval: u64) -> (r: TimedStream<T>)
    requires
        s.wf(),
        s.end as int + interval as int * s.items@.len() <= u64::MAX,
    ensures
        r.wf(),
        is_throttled(s.items@, interval, r.items@),
        r.end == throttle_end(r.items@, s.end, interval),
{
    let ghost src = s.items@;
    let n = s.items.len();
    let end = s.end;
    let mut rest = s.items;
    let mut out: Vec<Timed<T>> = Vec::new();
    let mut last: u64 = 0;
    let mut k: usize = 0;
    while k < n
        invariant
            k <= n,
            n == src.len(),
            rest@ == src.skip(k as int),
            out@.len() == k,
            timeline_wf(src, end),
            end as int + interval as int * n <= u64::MAX,
            forall|i: int| 0 <= i < k ==> (#[trigger] out@[i]).value == src[i].value,
            k > 0 ==> out@[0].at == src[0].at,
            forall|i: int|
                0 < i < k ==> (#[trigger] out@[i]).at == max_int(src[i].at as int, out@[i - 1].at + interval),
            forall|i: int| 0 <= i < k ==> (#[trigger] out@[i]).at <= last,
            k > 0 ==> last == out@[k - 1].at,
            k > 0 ==> last as int >= src[k - 1].at,
            k > 0 ==> last as int <= end as int + interval as int * (k - 1),
        decreases n - k,
    {
        assert(rest@[0] == src[k as int]);
        let item = rest.remove(0);
        let at = if k == 0 {
            item.at
        } else {
            assert(interval as int * (k - 1) + interval == interval as int * k) by (nonlinear_arith);
            assert(interval as int * k <= interval as int * n) by (nonlinear_arith)
                requires k <= n;
            let earliest = last + interval;
            if item.at >= earliest {
                item.at
            } else {
                earliest
            }
        };
        assert(at as int <= end as int + interval as int * k) by {
            assert(item.at <= end);
            if k > 0 {
                assert(interval as int * (k - 1) + interval == interval as int * k) by (nonlinear_arith);
            }
            assert(interval as int * k >= 0) by (nonlinear_arith);
        }
        out.push(Timed { at, value: item.value });
        last = at;
        assert(rest@ == src.skip(k + 1));
        k = k + 1;
    }
    let new_end = if n == 0 {
        end
    } else {
        assert(interval as int * (n - 1) + interval == interval as int * n) by (nonlinear_arith);
        let e = last + interval;
        if end >= e {
            end
        } else {
            e
        }
    };
    let r = TimedStream { items: out, end: new_end };
    assert forall|i: int, j: int| 0 <= i <= j < r.items@.len() implies (#[trigger] r.items@[i]).at
        <= (#[trigger] r.items@[j]).at by {
        lemma_throttle_monotone(src, interval, r.items@, i, j);
    }
    r
}

proof fn lemma_throttle_monotone<T>(s: Seq<Timed<T>>, interval: u64, out: Seq<Timed<T>>, i: int, j: int)
    requires
        out.len() == s.len(),
        forall|k: int|
            0 < k < s.len() ==> (#[trigger] out[k]).at == max_int(s[k].at as int, out[k - 1].at + interval),
        0 <= i <= j < s.len(),
    ensures
        out[i].at <= out[j].at,
    decreases j - i,
{
    if i < j {
        lemma_throttle_monotone(s, interval, out, i, j - 1);
        assert(out[j].at >= out[j - 1].at + interval);
    }
}

/// Throttling keeps every item, in order, and spaces successive yields at least `interval`
/// apart.
pub proof fn lemma_throttle_spacing<T>(s: Seq<Timed<T>>, interval: u64, out: Seq<Timed<T>>)
    requires
        is_throttled(s, interval, out),
    ensures
        values_of(out) == values_of(s),
        forall|i: int| 0 < i < out.len() ==> (#[trigger] out[i]).at >= out[i - 1].at + interval,
{
    assert(values_of(out) =~= values_of(s));
    assert forall|i: int| 0 < i < out.len() implies (#[trigger] out[i]).at >= out[i - 1].at + interval by {
        assert(out[i].at == max_int(s[i].at as int, out[i - 1].at + interval));
    }
}

// ---------------------------------------------------------------- timeout

/// What `timeout` yields for the items `s` still to come, when the current window opened at
/// `w` and lasts `d`: an item that is there by the end of the window is yielded as `Ok` (no
/// sooner than `w`); otherwise one `Err(Elapsed)` is yielded at the end of the window and the
/// item, which is not lost, follows as `Ok` when it arrives. Each `Ok` opens a new window.
/// A window still open when the inner stream ends at `end` yields its `Err` if it closes first.
pub open spec fn timeout_from<T>(s: Seq<Timed<T>>, end: u64, d: u64, w: int) -> Seq<
    Timed<Result<T, Elapsed>>,
>
    decreases s.len(),
{
    if s.len() == 0 {
        if end > w + d {
            seq![Timed { at: (w + d) as u64, value: Err(Elapsed) }]
        } else {
            Seq::empty()
        }
    } else {
        let t = s[0].at as int;
        if t <= w + d {
            let y = max_int(t, w);
            seq![Timed { at: y as u64, value: Ok(s[0].value) }] + timeout_from(s.skip(1), end, d, y)
        } else {
            seq![
                Timed { at: (w + d) as u64, value: Err(Elapsed) },
                Timed { at: t as u64, value: Ok(s[0].value) },
            ] + timeout_from(s.skip(1), end, d, t)
        }
    }
}

/// The values of the `Ok` items, in order.
pub open spec fn ok_values<T>(s: Seq<Timed<Result<T, Elapsed>>>) -> Seq<T>
    decreases s.len(),
{
    if s.len() == 0 {
        Seq::empty()
    } else {
        match s[0].value {
            Ok(v) => seq![v] + ok_values(s.skip(1)),
            Err(_) => ok_values(s.skip(1)),
        }
    }
}

/// Bounds the wait for each item of `s` to `d`, starting from instant 0.
pub fn timeout<T>(s: TimedStream<T>, d: u64) -> (r: TimedStream<Result<T, Elapsed>>)
    requires
        s.wf(),
        s.end as int + d as int <= u64::MAX,
    ensures
        r.wf(),
        r.items@ == timeout_from(s.items@, s.end, d, 0),
        r.end == s.end,
{
    let ghost src = s.items@;
    let n = s.items.len();
    let end = s.end;
    let mut rest = s.items;
    let mut out: Vec<Timed<Result<T, Elapsed>>> = Vec::new();
    let mut w: u64 = 0;
    let mut k: usize = 0;
    while k < n
        invariant
            k <= n,
            n == src.len(),
            rest@ == src.skip(k as int),
            timeline_wf(src, end),
            end as int + d as int <= u64::MAX,
            w <= end,
            out@ + timeout_from(rest@, end, d, w as int) == timeout_from(src, end, d, 0),
            timeline_wf(out@, w),
        decreases n - k,
    {
        assert(rest@[0] == src[k as int]);
        assert(src[k as int].at <= end);
        let item = rest.remove(0);
        let t = item.at;
        let ghost before = out@;
        let ghost tail = timeout_from(rest@, end, d, 0);
        if t <= w + d {
            let y = if t >= w {
                t
            } else {
                w
            };
            proof {
                assert(timeout_from(src.skip(k as int), end, d, w as int) == seq![
                    Timed { at: y, value: Ok::<T, Elapsed>(src[k as int].value) },
                ] + timeout_from(src.skip(k as int).skip(1), end, d, y as int));
                assert(src.skip(k as int).skip(1) == src.skip(k + 1));
            }
            out.push(Timed { at: y, value: Ok(item.value) });
            proof {
                assert(out@ + timeout_from(src.skip(k + 1), end, d, y as int) =~= before + timeout_from(
                    src.skip(k as int),
                    end,
                    d,
                    w as int,
                ));
            }
            w = y;
        } else {
            proof {
                assert(timeout_from(src.skip(k as int), end, d, w as int) == seq![
                    Timed { at: (w + d) as u64, value: Err::<T, Elapsed>(Elapsed) },
                    Timed { at: t, value: Ok::<T, Elapsed>(src[k as int].value) },
                ] + timeout_from(src.skip(k as int).skip(1), end, d, t as int));
                assert(src.skip(k as int).skip(1) == src.skip(k + 1));
            }
            out.push(Timed { at: w + d, value: Err(Elapsed) });
            out.push(Timed { at: t, value: Ok(item.value) });
            proof {
                assert(out@ + timeout_from(src.skip(k + 1), end, d, t as int) =~= before + timeout_from(
                    src.skip(k as int),
                    end,
                    d,
                    w as int,
                ));
            }
            w = t;
        }
        assert(rest@ == src.skip(k + 1));
        k = k + 1;
    }
    let ghost before = out@;
    if end > w + d {
        out.push(Timed { at: w + d, value: Err(Elapsed) });
    }
    proof {
        assert(rest@.len() == 0);
        assert(out@ =~= before + timeout_from(rest@, end, d, w as int));
    }
    TimedStream { items: out, end }
}

proof fn lemma_ok_values_concat<T>(a: Seq<Timed<Result<T, Elapsed>>>, b: Seq<Timed<Result<T, Elapsed>>>)
    ensures
        ok_values(a + b) == ok_values(a) + ok_values(b),
    decreases a.len(),
{
    if a.len() == 0 {
        assert(a + b =~= b);
        assert(ok_values(a) + ok_values(b) =~= ok_values(b));
    } else {
        assert((a + b).skip(1) =~= a.skip(1) + b);
        lemma_ok_values_concat(a.skip(1), b);
        match a[0].value {
            Ok(v) => {
                assert(seq![v] + (ok_values(a.skip(1)) + ok_values(b)) =~= (seq![v] + ok_values(a.skip(1)))
                    + ok_values(b));
            },
            Err(_) => {},
        }
    }
}

/// A timeout loses nothing: the `Ok` items it yields are exactly the inner stream's items,
/// in the same order, whatever `Err(Elapsed)` reports stand between them.
pub proof fn lemma_timeout_keeps_items<T>(s: Seq<Timed<T>>, end: u64, d: u64, w: int)
    ensures
        ok_values(timeout_from(s, end, d, w)) == values_of(s),
    decreases s.len(),
{
    if s.len() == 0 {
        if end > w + d {
            let e = seq![Timed { at: (w + d) as u64, value: Err::<T, Elapsed>(Elapsed) }];
            assert(e.skip(1) =~= Seq::<Timed<Result<T, Elapsed>>>::empty());
            assert(ok_values(e.skip(1)) =~= Seq::<T>::empty());
            assert(timeout_from(s, end, d, w) == e);
        }
        assert(values_of(s) =~= Seq::<T>::empty());
    } else {
        let t = s[0].at as int;
        let ok0 = Timed { at: 0u64, value: Ok::<T, Elapsed>(s[0].value) };
        if t <= w + d {
            let y = max_int(t, w);
            let head = seq![Timed { at: y as u64, value: Ok::<T, Elapsed>(s[0].value) }];
            lemma_timeout_keeps_items(s.skip(1), end, d, y);
            lemma_ok_values_concat(head, timeout_from(s.skip(1), end, d, y));
            assert(head.skip(1) =~= Seq::<Timed<Result<T, Elapsed>>>::empty());
            assert(ok_values(head.skip(1)) =~= Seq::<T>::empty());
            assert(ok_values(head) =~= seq![s[0].value]);
            assert(timeout_from(s, end, d, w) == head + timeout_from(s.skip(1), end, d, y));
        } else {
            let head = seq![
                Timed { at: (w + d) as u64, value: Err::<T, Elapsed>(Elapsed) },
                Timed { at: t as u64, value: Ok::<T, Elapsed>(s[0].value) },
            ];
            lemma_timeout_keeps_items(s.skip(1), end, d, t);
            lemma_ok_values_concat(head, timeout_from(s.skip(1), end, d, t));
            assert(head.skip(1).skip(1) =~= Seq::<Timed<Result<T, Elapsed>>>::empty());
            assert(ok_values(head.skip(1).skip(1)) =~= Seq::<T>::empty());
            assert(ok_values(head.skip(1)) =~= seq![s[0].value]);
            assert(ok_values(head) == ok_values(head.skip(1)));
            assert(timeout_from(s, end, d, w) == head + timeout_from(s.skip(1), end, d, t));
        }
        assert(values_of(s) =~= seq![s[0].value] + values_of(s.skip(1)));
    }
}

// ---------------------------------------------------------------- merge

/// Interleaves the items still to come from `a` and `b`, tagging each with its source
/// (`true` for `a`). The current instant is `w`: an item is yielded when it is available, no
/// sooner than `w`; the one available first goes first. When both are available at the same
/// instant, `prefer_a` decides, and after every yield the preference goes to the other side,
/// so neither side is starved.
pub open spec fn merge_from<T>(a: Seq<Timed<T>>, b: Seq<Timed<T>>, w: int, prefer_a: bool) -> Seq<
    (bool, Timed<T>),
>
    decreases a.len() + b.len(),
{
    if a.len() == 0 && b.len() == 0 {
        Seq::empty()
    } else {
        let ea = if a.len() > 0 { max_int(a[0].at as int, w) } else { 0 };
        let eb = if b.len() > 0 { max_int(b[0].at as int, w) } else { 0 };
        if merge_takes_a(a.len(), b.len(), ea, eb, prefer_a) {
            seq![(true, Timed { at: ea as u64, value: a[0].value })] + merge_from(a.skip(1), b, ea, false)
        } else {
            seq![(false, Timed { at: eb as u64, value: b[0].value })] + merge_from(a, b.skip(1), eb, true)
        }
    }
}

/// The next merged item comes from `a`.
pub open spec fn merge_takes_a(la: nat, lb: nat, ea: int, eb: int, prefer_a: bool) -> bool {
    lb == 0 || (la > 0 && (ea < eb || (ea == eb && prefer_a)))
}

/// The items of a tagged sequence without their tags.
pub open spec fn untagged<T>(m: Seq<(bool, Timed<T>)>) -> Seq<Timed<T>> {
    m.map_values(|p: (bool, Timed<T>)| p.1)
}

/// The values that came from one side (`true`: `a`), in merged order.
pub open spec fn from_side<T>(m: Seq<(bool, Timed<T>)>, side: bool) -> Seq<T>
    decreases m.len(),
{
    if m.len() == 0 {
        Seq::empty()
    } else if m[0].0 == side {
        seq![m[0].1.value] + from_side(m.skip(1), side)
    } else {
        from_side(m.skip(1), side)
    }
}

/// A merged stream is done once both of its sources are.
pub open spec fn merge_end(a_end: u64, b_end: u64) -> u64 {
    if a_end >= b_end { a_end } else { b_end }
}

/// Interleaves `a` and `b` as their items become available, starting at instant 0 with a
/// preference for `a` on ties.
pub fn merge<T>(a: TimedStream<T>, b: TimedStream<T>) -> (r: TimedStream<T>)
    requires
        a.wf(),
        b.wf(),
    ensures
        r.wf(),
        r.items@ == untagged(merge_from(a.items@, b.items@, 0, true)),
        r.end == merge_end(a.end, b.end),
{
    let ghost sa = a.items@;
    let ghost sb = b.items@;
    let end = if a.end >= b.end {
        a.end
    } else {
        b.end
    };
    let mut ra = a.items;
    let mut rb = b.items;
    let mut out: Vec<Timed<T>> = Vec::new();
    let ghost mut tagged: Seq<(bool, Timed<T>)> = Seq::empty();
    let mut w: u64 = 0;
    let mut prefer_a = true;
    while ra.len() > 0 || rb.len() > 0
        invariant
            timeline_wf(ra@, end),
            timeline_wf(rb@, end),
            w <= end,
            tagged + merge_from(ra@, rb@, w as int, prefer_a) == merge_from(sa, sb, 0, true),
            out@ == untagged(tagged),
            timeline_wf(out@, w),
        decreases ra@.len() + rb@.len(),
    {
        let ghost before = tagged;
        let ghost ra0 = ra@;
        let ghost rb0 = rb@;
        let ghost w0 = w;
        let ghost p0 = prefer_a;
        let ea: u64 = if ra.len() > 0 {
            if ra[0].at >= w {
                ra[0].at
            } else {
                w
            }
        } else {
            0
        };
        let eb: u64 = if rb.len() > 0 {
            if rb[0].at >= w {
                rb[0].at
            } else {
                w
            }
        } else {
            0
        };
        let takes_a = rb.len() == 0 || (ra.len() > 0 && (ea < eb || (ea == eb && prefer_a)));
        if takes_a {
            let item = ra.remove(0);
            let ghost e = (true, Timed { at: ea, value: item.value });
            proof {
                assert(merge_from(ra0, rb0, w0 as int, p0) == seq![e] + merge_from(ra@, rb0, ea as int, false)) by {
                    assert(ra0.skip(1) == ra@);
                }
                tagged = before.push(e);
                assert(tagged + merge_from(ra@, rb@, ea as int, false) =~= before + merge_from(ra0, rb0, w0 as int, p0));
                assert(timeline_wf(ra@, end)) by {
                    assert forall|i: int| 0 <= i < ra@.len() implies (#[trigger] ra@[i]).at <= end by {
                        assert(ra@[i] == ra0[i + 1]);
                    }
                    assert forall|i: int, j: int| 0 <= i <= j < ra@.len() implies (#[trigger] ra@[i]).at
                        <= (#[trigger] ra@[j]).at by {
                        assert(ra@[i] == ra0[i + 1] && ra@[j] == ra0[j + 1]);
                    }
                }
            }
            out.push(Timed { at: ea, value: item.value });
            w = ea;
            prefer_a = false;
            proof {
                assert(out@ =~= untagged(tagged));
            }
        } else {
            let item = rb.remove(0);
            let ghost e = (false, Timed { at: eb, value: item.value });
            proof {
                assert(merge_from(ra0, rb0, w0 as int, p0) == seq![e] + merge_from(ra0, rb@, eb as int, true)) by {
                    assert(rb0.skip(1) == rb@);
                }
                tagged = before.push(e);
                assert(tagged + merge_from(ra@, rb@, eb as int, true) =~= before + merge_from(ra0, rb0, w0 as int, p0));
                assert(timeline_wf(rb@, end)) by {
                    assert forall|i: int| 0 <= i < rb@.len() implies (#[trigger] rb@[i]).at <= end by {
                        assert(rb@[i] == rb0[i + 1]);
                    }
                    assert forall|i: int, j: int| 0 <= i <= j < rb@.len() implies (#[trigger] rb@[i]).at
                        <= (#[trigger] rb@[j]).at by {
                        assert(rb@[i] == rb0[i + 1] && rb@[j] == rb0[j + 1]);
                    }
                }
            }
            out.push(Timed { at: eb, value: item.value });
            w = eb;
            prefer_a = true;
            proof {
                assert(out@ =~= untagged(tagged));
            }
        }
    }
    proof {
        assert(merge_from(ra@, rb@, w as int, prefer_a) == Seq::<(bool, Timed<T>)>::empty());
        assert(tagged =~= merge_from(sa, sb, 0, true));
        assert forall|i: int| 0 <= i < out@.len() implies (#[trigger] out@[i]).at <= end by {
            assert(out@[i].at <= w);
        }
    }
    TimedStream { items: out, end }
}

/// Merging loses nothing and keeps each side's order: the items tagged with a side are that
/// side's items in their original order, and there are no others.
pub proof fn lemma_merge_keeps_order<T>(a: Seq<Timed<T>>, b: Seq<Timed<T>>, w: int, prefer_a: bool)
    ensures
        from_side(merge_from(a, b, w, prefer_a), true) == values_of(a),
        from_side(merge_from(a, b, w, prefer_a), false) == values_of(b),
        merge_from(a, b, w, prefer_a).len() == a.len() + b.len(),
    decreases a.len() + b.len(),
{
    let m = merge_from(a, b, w, prefer_a);
    if a.len() == 0 && b.len() == 0 {
        assert(values_of(a) =~= Seq::<T>::empty());
        assert(values_of(b) =~= Seq::<T>::empty());
    } else {
        let ea = if a.len() > 0 { max_int(a[0].at as int, w) } else { 0 };
        let eb = if b.len() > 0 { max_int(b[0].at as int, w) } else { 0 };
        if merge_takes_a(a.len(), b.len(), ea, eb, prefer_a) {
            lemma_merge_keeps_order(a.skip(1), b, ea, false);
            let rest = merge_from(a.skip(1), b, ea, false);
            assert(m.skip(1) =~= rest);
            assert(values_of(a) =~= seq![a[0].value] + values_of(a.skip(1)));
        } else {
            lemma_merge_keeps_order(a, b.skip(1), eb, true);
            let rest = merge_from(a, b.skip(1), eb, true);
            assert(m.skip(1) =~= rest);
            assert(values_of(b) =~= seq![b[0].value] + values_of(b.skip(1)));
        }
    }
}

/// A merged stream reports `Done` at an instant exactly when both of its sources have.
pub proof fn lemma_merge_done_iff_both(a_end: u64, b_end: u64, t: u64)
    ensures
        t >= merge_end(a_end, b_end) <==> (t >= a_end && t >= b_end),
{
}

// ---------------------------------------------------------------- take

/// Where `take(n)` ends: right at the start for `n == 0`, right after the `n`-th item when
/// there is one, else where the inner stream ends.
pub open spec fn take_end<T>(s: Seq<Timed<T>>, end: u64, n: nat) -> u64 {
    if n == 0 {
        0
    } else if s.len() >= n {
        s[n - 1].at
    } else {
        end
    }
}

/// Yields at most the first `n` items of `s`; the rest are never consumed.
pub fn take<T>(s: TimedStream<T>, n: usize) -> (r: TimedStream<T>)
    requires
        s.wf(),
    ensures
        r.wf(),
        r.items@ == s.items@.take(if n <= s.items@.len() { n as int } else { s.items@.len() as int }),
        r.end == take_end(s.items@, s.end, n as nat),
{
    let ghost src = s.items@;
    let len = s.items.len();
    let m = if n <= len {
        n
    } else {
        len
    };
    let new_end = if n == 0 {
        0
    } else if len >= n {
        s.items[n - 1].at
    } else {
        s.end
    };
    let mut rest = s.items;
    let mut out: Vec<Timed<T>> = Vec::new();
    let mut k: usize = 0;
    while k < m
        invariant
            k <= m <= src.len(),
            rest@ == src.skip(k as int),
            out@ == src.take(k as int),
        decreases m - k,
    {
        assert(rest@[0] == src[k as int]);
        let item = rest.remove(0);
        out.push(item);
        assert(rest@ == src.skip(k + 1));
        assert(out@ == src.take(k + 1));
        k = k + 1;
    }
    assert forall|i: int| 0 <= i < out@.len() implies (#[trigger] out@[i]).at <= new_end by {
        if n > 0 && len >= n {
            assert(src[i].at <= src[n - 1].at);
        }
    }
    TimedStream { items: out, end: new_end }
}

// ---------------------------------------------------------------- map

/// Transforms each item of `s` with `f`, keeping instants, order and the end.
pub fn map<T, U, F: Fn(T) -> U>(s: TimedStream<T>, f: F) -> (r: TimedStream<U>)
    requires
        s.wf(),
        forall|x: T| #[trigger] f.requires((x,)),
    ensures
        r.wf(),
        r.end == s.end,
        r.items@.len() == s.items@.len(),
        forall|i: int|
            0 <= i < s.items@.len() ==> (#[trigger] r.items@[i]).at == s.items@[i].at && f.ensures(
                (s.items@[i].value,),
                r.items@[i].value,
            ),
{
    let ghost src = s.items@;
    let n = s.items.len();
    let mut rest = s.items;
    let mut out: Vec<Timed<U>> = Vec::new();
    let mut k: usize = 0;
    while k < n
        invariant
            k <= n,
            n == src.len(),
            rest@ == src.skip(k as int),
            out@.len() == k,
            forall|x: T| #[trigger] f.requires((x,)),
            forall|i: int|
                0 <= i < k ==> (#[trigger] out@[i]).at == src[i].at && f.ensures((src[i].value,), out@[i].value),
        decreases n - k,
    {
        assert(rest@[0] == src[k as int]);
        let item = rest.remove(0);
        let value = f(item.value);
        out.push(Timed { at: item.at, value });
        assert(rest@ == src.skip(k + 1));
        k = k + 1;
    }
    let r = TimedStream { items: out, end: s.end };
    assert forall|i: int, j: int| 0 <= i <= j < r.items@.len() implies (#[trigger] r.items@[i]).at
        <= (#[trigger] r.items@[j]).at by {
        assert(src[i].at <= src[j].at);
    }
    assert forall|i: int| 0 <= i < r.items@.len() implies (#[trigger] r.items@[i]).at <= r.end by {
        assert(src[i].at <= s.end);
    }
    r
}

} // verus!
