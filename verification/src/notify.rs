//! Notifications between jobs: the message format, its parsing, and the filter
//! that drops repeated messages.
use std::collections::{HashMap, VecDeque};
use vstd::prelude::*;
use vstd::utf8::{decode_utf8, encode_utf8, valid_utf8};
use crate::text::{
    chars_of, decimal, is_digit, is_ws, last_sep, lemma_decimal, lemma_last_sep,
    lemma_split_pieces_join, lemma_split_pieces_no_sep, lemma_split_pieces_step, lemma_trim_id,
    lemma_trim_start_concat, lemma_trim_start_nonblank, lemma_trim_start_suffix, push_char,
    push_decimal, same_text, split_pieces, string_of, text_is, trim, trim_bounds, trim_start,
};

verus! {

broadcast use vstd::std_specs::hash::group_hash_axioms;

/// The UDP port notifications are sent to.
pub const NOTIFY_PORT: u16 = 2380;

/// The kind of a notification.
#[derive(Debug, Clone, Copy, PartialEq, Eq, Structural)]
pub enum NotifyType {
    StartMessage,
    SuccessMessage,
    FailureMessage,
    Ping,
}

/// How a notification kind is written in a message.
pub open spec fn notify_type_text(t: NotifyType) -> Seq<char> {
    match t {
        NotifyType::StartMessage => seq!['s', 't', 'a', 'r', 't', '-', 'm', 'e', 's', 's', 'a', 'g', 'e'],
        NotifyType::SuccessMessage => seq!['s', 'u', 'c', 'c', 'e', 's', 's', '-', 'm', 'e', 's', 's', 'a', 'g', 'e'],
        NotifyType::FailureMessage => seq!['f', 'a', 'i', 'l', 'u', 'r', 'e', '-', 'm', 'e', 's', 's', 'a', 'g', 'e'],
        NotifyType::Ping => seq!['p', 'i', 'n', 'g'],
    }
}

/// The notification kind a message word names, if any (exact spelling).
pub open spec fn spec_notify_type_from(s: Seq<char>) -> Option<NotifyType> {
    if s == seq!['s', 't', 'a', 'r', 't', '-', 'm', 'e', 's', 's', 'a', 'g', 'e'] {
        Some(NotifyType::StartMessage)
    } else if s == seq!['s', 'u', 'c', 'c', 'e', 's', 's', '-', 'm', 'e', 's', 's', 'a', 'g', 'e'] {
        Some(NotifyType::SuccessMessage)
    } else if s == seq!['f', 'a', 'i', 'l', 'u', 'r', 'e', '-', 'm', 'e', 's', 's', 'a', 'g', 'e'] {
        Some(NotifyType::FailureMessage)
    } else if s == seq!['p', 'i', 'n', 'g'] {
        Some(NotifyType::Ping)
    } else {
        None
    }
}

impl NotifyType {
    /// The word for this kind in a message.
    pub fn as_str(&self) -> (r: &'static str)
        ensures
            r@ == notify_type_text(*self),
    {
        match self {
            NotifyType::StartMessage => {
                proof {
                    reveal_strlit("start-message");
                }
                "start-message"
            },
            NotifyType::SuccessMessage => {
                proof {
                    reveal_strlit("success-message");
                }
                "success-message"
            },
            NotifyType::FailureMessage => {
                proof {
                    reveal_strlit("failure-message");
                }
                "failure-message"
            },
            NotifyType::Ping => {
                proof {
                    reveal_strlit("ping");
                }
                "ping"
            },
        }
    }

    /// The kind a message word names, if any.
    pub fn from_str(s: &str) -> (r: Option<NotifyType>)
        ensures
            r == spec_notify_type_from(s@),
    {
        if text_is(s, {
            let k: &[char] = &['s', 't', 'a', 'r', 't', '-', 'm', 'e', 's', 's', 'a', 'g', 'e'];
            assert(k@ =~= seq!['s', 't', 'a', 'r', 't', '-', 'm', 'e', 's', 's', 'a', 'g', 'e']);
            k
        }) {
            Some(NotifyType::StartMessage)
        } else if text_is(s, {
            let k: &[char] = &['s', 'u', 'c', 'c', 'e', 's', 's', '-', 'm', 'e', 's', 's', 'a', 'g', 'e'];
            assert(k@ =~= seq!['s', 'u', 'c', 'c', 'e', 's', 's', '-', 'm', 'e', 's', 's', 'a', 'g', 'e']);
            k
        }) {
            Some(NotifyType::SuccessMessage)
        } else if text_is(s, {
            let k: &[char] = &['f', 'a', 'i', 'l', 'u', 'r', 'e', '-', 'm', 'e', 's', 's', 'a', 'g', 'e'];
            assert(k@ =~= seq!['f', 'a', 'i', 'l', 'u', 'r', 'e', '-', 'm', 'e', 's', 's', 'a', 'g', 'e']);
            k
        }) {
            Some(NotifyType::FailureMessage)
        } else if text_is(s, {
            let k: &[char] = &['p', 'i', 'n', 'g'];
            assert(k@ =~= seq!['p', 'i', 'n', 'g']);
            k
        }) {
            Some(NotifyType::Ping)
        } else {
            None
        }
    }
}

/// The word written for a notification kind reads back as that kind.
pub proof fn lemma_notify_type_roundtrip(t: NotifyType)
    ensures
        spec_notify_type_from(notify_type_text(t)) == Some(t),
{
}

/// A notification received for one of our jobs.
#[derive(Debug, Clone)]
pub struct NotifyMessage {
    pub to_job: String,
    pub notify_type: NotifyType,
    pub from_job: String,
    pub from_host: String,
}

/// The mathematical form of a `NotifyMessage`.
pub struct NotifyMessageSpec {
    pub to_job: Seq<char>,
    pub notify_type: NotifyType,
    pub from_job: Seq<char>,
    pub from_host: Seq<char>,
}

impl View for NotifyMessage {
    type V = NotifyMessageSpec;

    open spec fn view(&self) -> NotifyMessageSpec {
        NotifyMessageSpec {
            to_job: self.to_job@,
            notify_type: self.notify_type,
            from_job: self.from_job@,
            from_host: self.from_host@,
        }
    }
}

/// The CRC-32 checksum of a byte string.
pub uninterp spec fn crc32_of(data: Seq<u8>) -> u32;

/// `crc32fast::hash`: the CRC-32 (IEEE) checksum of the bytes, named `crc32_of`.
#[verifier::external_body]
fn crc32(data: &[u8]) -> (r: u32)
    ensures
        r == crc32_of(data@),
{
    crc32fast::hash(data)
}

/// How many fingerprints the duplicate filter remembers.
pub const FILTER_WINDOW: usize = 20;

/// One step of the duplicate filter on a message with the given fingerprint: a
/// message stored under its fingerprint is a duplicate and changes nothing; any
/// other message is stored (replacing what that fingerprint held), its fingerprint
/// queued, and when more than the window is queued the oldest fingerprint is dropped
/// together with what it holds.
pub open spec fn filter_step(known: Map<u32, Seq<char>>, lifo: Seq<u32>, fp: u32, msg: Seq<char>) -> (
    Map<u32, Seq<char>>,
    Seq<u32>,
    bool,
) {
    if known.contains_key(fp) && known[fp] == msg {
        (known, lifo, true)
    } else {
        let k1 = known.insert(fp, msg);
        let l1 = lifo.push(fp);
        if l1.len() > FILTER_WINDOW {
            (k1.remove(l1[0]), l1.drop_first(), false)
        } else {
            (k1, l1, false)
        }
    }
}

/// The fingerprint of a message: the checksum of its UTF-8 bytes.
pub open spec fn fingerprint(msg: Seq<char>) -> u32 {
    crc32_of(encode_utf8(msg))
}

/// Drops notifications seen recently, recognised by their CRC-32 fingerprint; it
/// remembers the last 20 fingerprints.
pub struct DuplicateFilter {
    known: HashMap<u32, String>,
    lifo: VecDeque<u32>,
}

impl View for DuplicateFilter {
    type V = (Map<u32, Seq<char>>, Seq<u32>);

    closed spec fn view(&self) -> (Map<u32, Seq<char>>, Seq<u32>) {
        (self.known@.map_values(|s: String| s@), self.lifo@)
    }
}

impl DuplicateFilter {
    /// At most the window of fingerprints is queued.
    pub open spec fn wf(&self) -> bool {
        self@.1.len() <= FILTER_WINDOW
    }

    /// An empty filter.
    pub fn new() -> (f: DuplicateFilter)
        ensures
            f.wf(),
            f@.0 == Map::<u32, Seq<char>>::empty(),
            f@.1 == Seq::<u32>::empty(),
    {
        let f = DuplicateFilter { known: HashMap::new(), lifo: VecDeque::new() };
        assert(f@.0 =~= Map::<u32, Seq<char>>::empty());
        f
    }

    /// Whether the message was seen recently (then it should be ignored); otherwise it
    /// is remembered.
    pub fn is_duplicate(&mut self, msg: &str) -> (r: bool)
        requires
            old(self).wf(),
        ensures
            (final(self)@.0, final(self)@.1, r) == filter_step(
                old(self)@.0,
                old(self)@.1,
                fingerprint(msg@),
                msg@,
            ),
            final(self).wf(),
    {
        let fp = crc32(msg.as_bytes());
        let ghost old_known = self@.0;
        let ghost old_lifo = self@.1;
        match self.known.get(&fp) {
            Some(existing) => {
                if same_text(existing.as_str(), msg) {
                    return true;
                }
            },
            None => {},
        }
        let stored = crate::text::copy_string(msg);
        self.known.insert(fp, stored);
        self.lifo.push_back(fp);
        assert(self.known@.map_values(|s: String| s@) =~= old_known.insert(fp, msg@));
        if self.lifo.len() > FILTER_WINDOW {
            match self.lifo.pop_front() {
                Some(old_fp) => {
                    let ghost before = self.known@;
                    self.known.remove(&old_fp);
                    assert(self.known@.map_values(|s: String| s@) =~= old_known.insert(fp, msg@).remove(
                        old_fp,
                    ));
                    assert(self.lifo@ =~= old_lifo.push(fp).drop_first());
                },
                None => {},
            }
        }
        false
    }
}

/// A message that the filter has just taken in is a duplicate when it comes again
/// right after, unless taking it in pushed the oldest fingerprint out of a full
/// window and that fingerprint was its own.
pub proof fn lemma_repeat_is_duplicate(known: Map<u32, Seq<char>>, lifo: Seq<u32>, fp: u32, msg: Seq<char>)
    requires
        lifo.len() <= FILTER_WINDOW,
        !(lifo.len() == FILTER_WINDOW && lifo[0] == fp && !(known.contains_key(fp) && known[fp]
            == msg)),
    ensures
        ({
            let first = filter_step(known, lifo, fp, msg);
            filter_step(first.0, first.1, fp, msg).2
        }),
{
    if !(known.contains_key(fp) && known[fp] == msg) {
        let l1 = lifo.push(fp);
        if l1.len() > FILTER_WINDOW {
            assert(l1[0] == lifo[0]);
        }
    }
}

/// The filter after the messages, in order, starting empty: what it knows, its queue
/// of fingerprints, and the messages it took in (those that were not duplicates).
pub open spec fn filter_run(msgs: Seq<Seq<char>>) -> (Map<u32, Seq<char>>, Seq<u32>, Seq<Seq<char>>)
    decreases msgs.len(),
{
    if msgs.len() == 0 {
        (Map::empty(), seq![], seq![])
    } else {
        let before = filter_run(msgs.drop_last());
        let m = msgs.last();
        let st = filter_step(before.0, before.1, fingerprint(m), m);
        (st.0, st.1, if st.2 {
            before.2
        } else {
            before.2.push(m)
        })
    }
}

/// The messages taken in that the window still holds: the last twenty.
pub open spec fn recent(taken: Seq<Seq<char>>) -> Seq<Seq<char>> {
    if taken.len() <= FILTER_WINDOW {
        taken
    } else {
        taken.skip(taken.len() - FILTER_WINDOW)
    }
}

/// No two different messages among `ms` have the same fingerprint.
pub open spec fn fingerprints_apart(ms: Seq<Seq<char>>) -> bool {
    forall|i: int, j: int|
        #![trigger ms[i], ms[j]]
        0 <= i < ms.len() && 0 <= j < ms.len() && fingerprint(ms[i]) == fingerprint(ms[j])
            ==> ms[i] == ms[j]
}

/// The filter's map and queue hold exactly the window `w` of distinct messages.
pub open spec fn window_matches(k: Map<u32, Seq<char>>, l: Seq<u32>, w: Seq<Seq<char>>) -> bool {
    &&& l.len() == w.len()
    &&& forall|i: int|
        0 <= i < l.len() ==> l[i] == fingerprint(w[i]) && k.contains_key(#[trigger] l[i]) && k[l[i]]
            == w[i]
    &&& forall|x: u32| k.contains_key(x) ==> exists|i: int| 0 <= i < l.len() && #[trigger] l[i] == x
    &&& forall|i: int, j: int| 0 <= i < j < w.len() ==> w[i] != w[j]
}

proof fn lemma_filter_run_basic(msgs: Seq<Seq<char>>)
    ensures
        filter_run(msgs).1.len() <= FILTER_WINDOW,
        forall|x: u32|
            filter_run(msgs).0.contains_key(x) ==> filter_run(msgs).2.contains(
                #[trigger] filter_run(msgs).0[x],
            ),
        forall|i: int|
            0 <= i < filter_run(msgs).2.len() ==> msgs.contains(#[trigger] filter_run(msgs).2[i]),
    decreases msgs.len(),
{
    if msgs.len() > 0 {
        let init = msgs.drop_last();
        lemma_filter_run_basic(init);
        let b = filter_run(init);
        let m = msgs.last();
        let r = filter_run(msgs);
        assert forall|i: int| 0 <= i < r.2.len() implies msgs.contains(#[trigger] r.2[i]) by {
            if i < b.2.len() {
                assert(r.2[i] == b.2[i]);
                let j = choose|j: int| 0 <= j < init.len() && init[j] == b.2[i];
                assert(msgs[j] == init[j]);
            } else {
                assert(r.2[i] == m);
                assert(msgs[msgs.len() - 1] == m);
            }
        }
        assert forall|x: u32| r.0.contains_key(x) implies r.2.contains(#[trigger] r.0[x]) by {
            if r.0[x] == m {
                if !filter_step(b.0, b.1, fingerprint(m), m).2 {
                    assert(r.2[r.2.len() - 1] == m);
                }
            } else {
                assert(b.0.contains_key(x) && b.0[x] == r.0[x]);
                let j = choose|j: int| 0 <= j < b.2.len() && b.2[j] == b.0[x];
                assert(r.2[j] == b.2[j]);
            }
        }
    }
}

proof fn lemma_filter_run_window(msgs: Seq<Seq<char>>)
    requires
        fingerprints_apart(msgs),
    ensures
        window_matches(filter_run(msgs).0, filter_run(msgs).1, recent(filter_run(msgs).2)),
    decreases msgs.len(),
{
    if msgs.len() == 0 {
        assert(recent(filter_run(msgs).2) =~= Seq::<Seq<char>>::empty());
    } else {
        let init = msgs.drop_last();
        assert(fingerprints_apart(init)) by {
            assert forall|i: int, j: int|
                0 <= i < init.len() && 0 <= j < init.len() && fingerprint(init[i]) == fingerprint(
                    init[j],
                ) implies init[i] == init[j] by {
                assert(init[i] == msgs[i] && init[j] == msgs[j]);
            }
        }
        lemma_filter_run_window(init);
        lemma_filter_run_basic(init);
        let b = filter_run(init);
        let m = msgs.last();
        let f = fingerprint(m);
        let w = recent(b.2);
        let st = filter_step(b.0, b.1, f, m);
        if !st.2 {
            // the fingerprint of a new message is not known
            assert(!b.0.contains_key(f)) by {
                if b.0.contains_key(f) {
                    let i = choose|i: int| 0 <= i < b.1.len() && #[trigger] b.1[i] == f;
                    assert(b.0[b.1[i]] == w[i]);
                    assert(b.2.contains(w[i])) by {
                        if b.2.len() > FILTER_WINDOW {
                            assert(w[i] == b.2[b.2.len() - FILTER_WINDOW + i]);
                        }
                    }
                    let q = choose|q: int| 0 <= q < b.2.len() && b.2[q] == w[i];
                    assert(init.contains(b.2[q]));
                    let jj = choose|jj: int| 0 <= jj < init.len() && init[jj] == b.2[q];
                    assert(msgs[jj] == w[i]);
                    assert(msgs[msgs.len() - 1] == m);
                    assert(w[i] == m);
                }
            }
            assert forall|i: int| 0 <= i < w.len() implies w[i] != m by {
                assert(b.0.contains_key(b.1[i]));
            }
            let taken = b.2.push(m);
            let w1 = w.push(m);
            let k1 = b.0.insert(f, m);
            let l1 = b.1.push(f);
            assert forall|i: int, j: int| 0 <= i < j < w1.len() implies w1[i] != w1[j] by {
                if j < w.len() {
                    assert(w1[i] == w[i] && w1[j] == w[j]);
                } else {
                    assert(w1[i] == w[i]);
                }
            }
            assert(window_matches(k1, l1, w1)) by {
                assert forall|i: int| 0 <= i < l1.len() implies l1[i] == fingerprint(w1[i])
                    && k1.contains_key(#[trigger] l1[i]) && k1[l1[i]] == w1[i] by {
                    if i < b.1.len() {
                        assert(l1[i] == b.1[i]);
                        assert(b.0.contains_key(b.1[i]));
                        assert(b.1[i] != f);
                    }
                }
                assert forall|x: u32| k1.contains_key(x) implies exists|i: int|
                    0 <= i < l1.len() && #[trigger] l1[i] == x by {
                    if x == f {
                        assert(l1[l1.len() - 1] == x);
                    } else {
                        let i = choose|i: int| 0 <= i < b.1.len() && #[trigger] b.1[i] == x;
                        assert(l1[i] == x);
                    }
                }
            }
            if b.1.len() < FILTER_WINDOW {
                assert(b.2.len() == b.1.len());
                assert(recent(taken) =~= w1);
            } else {
                assert(w.len() == FILTER_WINDOW);
                assert(b.2.len() >= FILTER_WINDOW);
                assert(recent(taken) =~= w1.drop_first()) by {
                    if b.2.len() > FILTER_WINDOW {
                        assert(w =~= b.2.skip(b.2.len() - FILTER_WINDOW));
                    } else {
                        assert(w =~= b.2);
                    }
                }
                let w2 = w1.drop_first();
                let k2 = k1.remove(l1[0]);
                let l2 = l1.drop_first();
                assert(l1[0] == b.1[0]);
                assert(l1[0] != f);
                assert forall|i: int, j: int| 0 <= i < j < w2.len() implies w2[i] != w2[j] by {
                    assert(w2[i] == w1[i + 1] && w2[j] == w1[j + 1]);
                }
                // fingerprints in the window are distinct
                assert forall|i: int| 0 < i < l1.len() implies #[trigger] l1[i] != l1[0] by {
                    if l1[i] == l1[0] {
                        assert(fingerprint(w1[i]) == fingerprint(w1[0]));
                        assert(w1[i] != w1[0]);
                        assert(b.2.contains(w1[0]) && b.2.contains(w1[i])) by {
                            if b.2.len() > FILTER_WINDOW {
                                assert(w1[0] == b.2[b.2.len() - FILTER_WINDOW]);
                            } else {
                                assert(w1[0] == b.2[0]);
                            }
                            if i < w.len() {
                                if b.2.len() > FILTER_WINDOW {
                                    assert(w1[i] == b.2[b.2.len() - FILTER_WINDOW + i]);
                                } else {
                                    assert(w1[i] == b.2[i]);
                                }
                            } else {
                                assert(w1[i] == m);
                                assert(false);
                            }
                        }
                        let q0 = choose|q: int| 0 <= q < b.2.len() && b.2[q] == w1[0];
                        let qi = choose|q: int| 0 <= q < b.2.len() && b.2[q] == w1[i];
                        assert(init.contains(b.2[q0]) && init.contains(b.2[qi]));
                        let a0 = choose|a: int| 0 <= a < init.len() && init[a] == b.2[q0];
                        let ai = choose|a: int| 0 <= a < init.len() && init[a] == b.2[qi];
                        assert(msgs[a0] == w1[0] && msgs[ai] == w1[i]);
                    }
                }
                assert(window_matches(k2, l2, w2)) by {
                    assert forall|i: int| 0 <= i < l2.len() implies l2[i] == fingerprint(w2[i])
                        && k2.contains_key(#[trigger] l2[i]) && k2[l2[i]] == w2[i] by {
                        assert(l2[i] == l1[i + 1]);
                        assert(w2[i] == w1[i + 1]);
                        assert(l1[i + 1] != l1[0]);
                    }
                    assert forall|x: u32| k2.contains_key(x) implies exists|i: int|
                        0 <= i < l2.len() && #[trigger] l2[i] == x by {
                        let i = choose|i: int| 0 <= i < l1.len() && #[trigger] l1[i] == x;
                        assert(i != 0);
                        assert(l2[i - 1] == x);
                    }
                }
            }
        }
    }
}

/// The duplicate filter over a sequence of messages: a message is reported as a
/// duplicate only if an earlier call took it in (a fingerprint collision never gives
/// a false report), and a call that reports a duplicate leaves the filter as it was.
/// When no two different messages have the same fingerprint, a message is a
/// duplicate exactly when it is among the last twenty messages the filter took in.
pub proof fn lemma_filter_over_calls(msgs: Seq<Seq<char>>, m: Seq<char>)
    ensures
        ({
            let r = filter_run(msgs);
            let st = filter_step(r.0, r.1, fingerprint(m), m);
            &&& st.2 ==> r.2.contains(m) && msgs.contains(m)
            &&& st.2 ==> st.0 == r.0 && st.1 == r.1
            &&& fingerprints_apart(msgs.push(m)) ==> (st.2 <==> recent(r.2).contains(m))
        }),
{
    let r = filter_run(msgs);
    let f = fingerprint(m);
    lemma_filter_run_basic(msgs);
    let st = filter_step(r.0, r.1, f, m);
    if st.2 {
        assert(r.2.contains(r.0[f]));
        let q = choose|q: int| 0 <= q < r.2.len() && r.2[q] == m;
        assert(msgs.contains(r.2[q]));
    }
    if fingerprints_apart(msgs.push(m)) {
        let all = msgs.push(m);
        assert(fingerprints_apart(msgs)) by {
            assert forall|i: int, j: int|
                0 <= i < msgs.len() && 0 <= j < msgs.len() && fingerprint(msgs[i]) == fingerprint(
                    msgs[j],
                ) implies msgs[i] == msgs[j] by {
                assert(all[i] == msgs[i] && all[j] == msgs[j]);
            }
        }
        lemma_filter_run_window(msgs);
        let w = recent(r.2);
        if recent(r.2).contains(m) {
            let i = choose|i: int| 0 <= i < w.len() && w[i] == m;
            assert(r.1[i] == f);
            assert(r.0.contains_key(r.1[i]));
        }
        if st.2 {
            let i = choose|i: int| 0 <= i < r.1.len() && #[trigger] r.1[i] == f;
            assert(r.0[r.1[i]] == w[i]);
            assert(w.contains(m)) by {
                assert(w[i] == m);
            }
        }
    }
}

/// The fields of a notification packet `<from_host> <to_job> <from_job> <type> ...`
/// received from `remote`: `None` when it has fewer than four space-separated words
/// or the type word is unknown. The sender is taken from the packet's address, not
/// from its first word.
pub open spec fn spec_parse_notify(p: Seq<char>, remote: Seq<char>) -> Option<NotifyMessageSpec> {
    let ps = split_pieces(p, ' ');
    if ps.len() < 4 {
        None
    } else {
        match spec_notify_type_from(ps[3]) {
            None => None,
            Some(t) => Some(
                NotifyMessageSpec { to_job: ps[1], notify_type: t, from_job: ps[2], from_host: remote },
            ),
        }
    }
}

/// `std::str::from_utf8`: the text the bytes encode, if they are valid UTF-8.
#[verifier::external_body]
fn utf8_text(buf: &[u8]) -> (r: Option<&str>)
    ensures
        r is Some <==> valid_utf8(buf@),
        r matches Some(s) ==> s@ == decode_utf8(buf@),
{
    std::str::from_utf8(buf).ok()
}

/// The space-separated words of `v`, as `str::split(' ')` gives them.
fn split_words(v: &Vec<char>) -> (r: Vec<String>)
    ensures
        r@.map_values(|s: String| s@) == split_pieces(v@, ' '),
{
    let n = v.len();
    let ghost t = v@;
    let mut out: Vec<String> = Vec::new();
    let mut start: usize = 0;
    let mut i: usize = 0;
    proof {
        assert(t.take(0) =~= Seq::<char>::empty());
        lemma_last_sep(t.take(0), ' ');
        assert(out@.map_values(|s: String| s@) =~= split_pieces(t.take(0), ' ').drop_last());
    }
    while i < n
        invariant
            t == v@,
            n == v.len(),
            start <= i <= n,
            split_pieces(t.take(i as int), ' ').len() >= 1,
            split_pieces(t.take(i as int), ' ').last() == t.subrange(start as int, i as int),
            out@.map_values(|s: String| s@) == split_pieces(t.take(i as int), ' ').drop_last(),
        decreases n - i,
    {
        proof {
            lemma_split_pieces_step(t, ' ', i as int);
        }
        let ghost before = split_pieces(t.take(i as int), ' ');
        if v[i] == ' ' {
            let piece = string_of(v, start, i);
            let ghost old_out = out@;
            out.push(piece);
            assert(out@.map_values(|s: String| s@) =~= old_out.map_values(|s: String| s@).push(
                piece@,
            ));
            assert(out@.map_values(|s: String| s@) =~= split_pieces(t.take(i + 1), ' ').drop_last());
            start = i + 1;
            assert(t.subrange(start as int, (i + 1) as int) =~= Seq::<char>::empty());
        } else {
            assert(t.subrange(start as int, i + 1) =~= t.subrange(start as int, i as int).push(
                t[i as int],
            ));
            assert(split_pieces(t.take(i + 1), ' ').drop_last() =~= before.drop_last());
        }
        i = i + 1;
    }
    assert(t.take(n as int) =~= t);
    let piece = string_of(v, start, n);
    let ghost old_out = out@;
    out.push(piece);
    assert(out@.map_values(|s: String| s@) =~= old_out.map_values(|s: String| s@).push(piece@));
    assert(out@.map_values(|s: String| s@) =~= split_pieces(t, ' '));
    out
}

/// Parses a notification packet `<from_host> <to_job> <from_job> <type> <timestamp>`
/// that came from the address `remote_ip`. `None` when the bytes are not UTF-8, the
/// packet (trimmed) was seen recently, it has fewer than four words, or its type is
/// unknown. A packet that is not a duplicate is remembered by the filter, whether or
/// not it parses.
pub fn recv_notify(buf: &[u8], remote_ip: &str, filter: &mut DuplicateFilter) -> (r: Option<NotifyMessage>)
    requires
        old(filter).wf(),
    ensures
        final(filter).wf(),
        !valid_utf8(buf@) ==> r is None && final(filter)@ == old(filter)@,
        valid_utf8(buf@) ==> {
            let p = trim(decode_utf8(buf@));
            let st = filter_step(old(filter)@.0, old(filter)@.1, fingerprint(p), p);
            &&& final(filter)@ == (st.0, st.1)
            &&& st.2 ==> r is None
            &&& !st.2 ==> match r {
                Some(m) => spec_parse_notify(p, remote_ip@) == Some(m@),
                None => spec_parse_notify(p, remote_ip@) is None,
            }
        },
{
    let text = match utf8_text(buf) {
        Some(t) => t,
        None => return None,
    };
    let v = chars_of(text);
    let (a, b) = trim_bounds(&v, 0, v.len());
    assert(v@.subrange(0, v@.len() as int) =~= v@);
    let packet = string_of(&v, a, b);
    if filter.is_duplicate(packet.as_str()) {
        return None;
    }
    let pv = chars_of(packet.as_str());
    let parts = split_words(&pv);
    if parts.len() < 4 {
        return None;
    }
    let ghost ps = split_pieces(pv@, ' ');
    assert(parts@[3]@ == ps[3]);
    let notify_type = match NotifyType::from_str(parts[3].as_str()) {
        Some(t) => t,
        None => return None,
    };
    assert(parts@[1]@ == ps[1]);
    assert(parts@[2]@ == ps[2]);
    Some(
        NotifyMessage {
            to_job: parts[1].clone(),
            notify_type,
            from_job: parts[2].clone(),
            from_host: crate::text::copy_string(remote_ip),
        },
    )
}

/// What to send for a notification: the message and the address to send it to.
pub struct NotifyRequest {
    pub remote_host: String,
    pub remote_addr: String,
    pub message: String,
}

/// The message `<my_host> <remote_job> <my_job> <type> <timestamp>` for the target
/// `<host>:<job>` (split at its last colon).
pub open spec fn notify_message_text(
    my_host: Seq<char>,
    remote_job: Seq<char>,
    my_job: Seq<char>,
    t: NotifyType,
    timestamp: u64,
) -> Seq<char> {
    my_host + seq![' '] + remote_job + seq![' '] + my_job + seq![' '] + notify_type_text(t) + seq![' ']
        + decimal(timestamp as nat)
}

/// The words of a notification message are the host, the target job, our job, the
/// kind and the timestamp, when none of the names holds a space.
proof fn lemma_message_words(
    my_host: Seq<char>,
    remote_job: Seq<char>,
    my_job: Seq<char>,
    t: NotifyType,
    timestamp: u64,
)
    requires
        forall|i: int| 0 <= i < my_host.len() ==> my_host[i] != ' ',
        forall|i: int| 0 <= i < remote_job.len() ==> remote_job[i] != ' ',
        forall|i: int| 0 <= i < my_job.len() ==> my_job[i] != ' ',
    ensures
        split_pieces(notify_message_text(my_host, remote_job, my_job, t, timestamp), ' ') == seq![
            my_host,
            remote_job,
            my_job,
            notify_type_text(t),
            decimal(timestamp as nat),
        ],
{
    let sp = seq![' '];
    let nt = notify_type_text(t);
    let dec = decimal(timestamp as nat);
    lemma_decimal(timestamp as nat);
    assert forall|i: int| 0 <= i < dec.len() implies dec[i] != ' ' by {
        assert(is_digit(dec[i]));
    }
    assert forall|i: int| 0 <= i < nt.len() implies nt[i] != ' ' by {}
    lemma_split_pieces_no_sep(my_host, ' ');
    lemma_split_pieces_no_sep(remote_job, ' ');
    lemma_split_pieces_no_sep(my_job, ' ');
    lemma_split_pieces_no_sep(nt, ' ');
    lemma_split_pieces_no_sep(dec, ' ');
    let a2 = my_host + sp + remote_job;
    let a3 = a2 + sp + my_job;
    let a4 = a3 + sp + nt;
    lemma_split_pieces_join(my_host, remote_job, ' ');
    lemma_split_pieces_join(a2, my_job, ' ');
    lemma_split_pieces_join(a3, nt, ' ');
    lemma_split_pieces_join(a4, dec, ' ');
    assert(split_pieces(a4 + sp + dec, ' ') =~= seq![my_host, remote_job, my_job, nt, dec]);
}

/// A notification reads back as it was written: the message that `notify_request`
/// builds, sent as UTF-8 and received from `remote`, is valid text and, once
/// trimmed, names the target job, the sending job and the kind. This holds when the
/// host name holds some character that is not whitespace and none of the names holds
/// a space; when the host name does not begin with whitespace, trimming leaves the
/// message as it is.
pub proof fn lemma_notify_roundtrip(
    my_host: Seq<char>,
    remote_job: Seq<char>,
    my_job: Seq<char>,
    t: NotifyType,
    timestamp: u64,
    remote: Seq<char>,
)
    requires
        exists|i: int| 0 <= i < my_host.len() && !is_ws(#[trigger] my_host[i]),
        forall|i: int| 0 <= i < my_host.len() ==> my_host[i] != ' ',
        forall|i: int| 0 <= i < remote_job.len() ==> remote_job[i] != ' ',
        forall|i: int| 0 <= i < my_job.len() ==> my_job[i] != ' ',
    ensures
        valid_utf8(encode_utf8(notify_message_text(my_host, remote_job, my_job, t, timestamp))),
        spec_parse_notify(
            trim(decode_utf8(encode_utf8(notify_message_text(my_host, remote_job, my_job, t, timestamp)))),
            remote,
        ) == Some(
            NotifyMessageSpec { to_job: remote_job, notify_type: t, from_job: my_job, from_host: remote },
        ),
        !is_ws(my_host[0]) ==> trim(
            decode_utf8(encode_utf8(notify_message_text(my_host, remote_job, my_job, t, timestamp))),
        ) == notify_message_text(my_host, remote_job, my_job, t, timestamp),
{
    let m = notify_message_text(my_host, remote_job, my_job, t, timestamp);
    let dec = decimal(timestamp as nat);
    let sp = seq![' '];
    let tail = sp + remote_job + sp + my_job + sp + notify_type_text(t) + sp + dec;
    vstd::utf8::encode_utf8_valid_utf8(m);
    vstd::utf8::encode_utf8_decode_utf8(m);
    lemma_decimal(timestamp as nat);
    let i = choose|i: int| 0 <= i < my_host.len() && !is_ws(#[trigger] my_host[i]);
    assert(m =~= my_host + tail);
    lemma_trim_start_concat(my_host, tail, i);
    let h2 = trim_start(my_host);
    lemma_trim_start_nonblank(my_host, i);
    lemma_trim_start_suffix(my_host);
    assert forall|k: int| 0 <= k < h2.len() implies h2[k] != ' ' by {
        assert(h2[k] == my_host[my_host.len() - h2.len() + k]);
    }
    let m2 = h2 + tail;
    assert(m2[0] == h2[0]);
    assert(m2.last() == dec.last());
    assert(is_digit(dec[dec.len() - 1]));
    lemma_trim_id(m2);
    assert(trim(m) == m2);
    assert(m2 =~= notify_message_text(h2, remote_job, my_job, t, timestamp));
    lemma_message_words(h2, remote_job, my_job, t, timestamp);
    lemma_notify_type_roundtrip(t);
    if !is_ws(my_host[0]) {
        assert(trim_start(my_host) == my_host);
    }
}

/// Builds the notification for `target` (`host:job`) sent by our job `my_job` on
/// `my_host`; `None` when the target has no colon.
pub fn notify_request(target: &str, my_job: &str, notify: NotifyType, my_host: &str, timestamp: u64) -> (r:
    Option<NotifyRequest>)
    ensures
        last_sep(target@, ':') < 0 ==> r is None,
        last_sep(target@, ':') >= 0 ==> (r matches Some(req) && {
            let c = last_sep(target@, ':');
            &&& req.remote_host@ == target@.take(c)
            &&& req.remote_addr@ == target@.take(c) + seq![':'] + decimal(NOTIFY_PORT as nat)
            &&& req.message@ == notify_message_text(
                my_host@,
                target@.skip(c + 1),
                my_job@,
                notify,
                timestamp,
            )
        }),
{
    let v = chars_of(target);
    proof {
        lemma_last_sep(v@, ':');
    }
    let mut c = v.len();
    while c > 0 && v[c - 1] != ':'
        invariant
            c <= v.len(),
            v@ == target@,
            forall|i: int| c <= i < v.len() ==> v@[i] != ':',
        decreases c,
    {
        c = c - 1;
    }
    if c == 0 {
        assert(last_sep(v@, ':') < 0);
        return None;
    }
    let c = c - 1;
    assert(last_sep(v@, ':') == c);
    let remote_host = string_of(&v, 0, c);
    let remote_job = string_of(&v, c + 1, v.len());
    assert(v@.subrange(0, c as int) =~= v@.take(c as int));
    assert(v@.subrange(c + 1, v.len() as int) =~= v@.skip(c + 1));
    let mut message = crate::text::copy_string(my_host);
    push_char(&mut message, ' ');
    message.append(remote_job.as_str());
    push_char(&mut message, ' ');
    message.append(my_job);
    push_char(&mut message, ' ');
    message.append(notify.as_str());
    push_char(&mut message, ' ');
    push_decimal(&mut message, timestamp);
    let mut remote_addr = remote_host.clone();
    push_char(&mut remote_addr, ':');
    push_decimal(&mut remote_addr, NOTIFY_PORT as u64);
    Some(NotifyRequest { remote_host, remote_addr, message })
}

/// How many unanswered attempts to send a notification are made before giving up.
pub const NOTIFY_ATTEMPTS: u32 = 3;

/// What follows one attempt to send a notification, after `unanswered` earlier
/// attempts went unanswered: a reply ends the sending (`None`), and so does a third
/// unanswered attempt; otherwise the message is sent again and the count of
/// unanswered attempts is given back.
pub fn after_send_attempt(unanswered: u32, replied: bool) -> (r: Option<u32>)
    ensures
        r == (if replied || unanswered + 1 >= NOTIFY_ATTEMPTS {
            None::<u32>
        } else {
            Some((unanswered + 1) as u32)
        }),
{
    if replied || unanswered >= NOTIFY_ATTEMPTS - 1 {
        None
    } else {
        Some(unanswered + 1)
    }
}

/// The notification a finished job sends: failure when it exited with a non-zero
/// status or was killed by a signal, success otherwise.
pub fn exit_notify_type(exit_code: i32, signal_num: i32) -> (t: NotifyType)
    ensures
        t == (if exit_code != 0 || signal_num != 0 {
            NotifyType::FailureMessage
        } else {
            NotifyType::SuccessMessage
        }),
{
    if exit_code != 0 || signal_num != 0 {
        NotifyType::FailureMessage
    } else {
        NotifyType::SuccessMessage
    }
}

} // verus!
