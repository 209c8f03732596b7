use vstd::prelude::*;
use crate::value::{Value, ValModel, val_model};

verus! {

/// One scope's worth of bindings: the names bound in that frame, each at most
/// once.
#[derive(Debug)]
pub struct StackFrame {
    pub identifiers: Vec<String>,
}

/// The set of names a sequence of identifiers holds.
pub open spec fn names_set(ids: Seq<String>) -> Set<Seq<char>> {
    Set::new(|n: Seq<char>| exists|i: int| 0 <= i < ids.len() && ids[i]@ == n)
}

/// No two identifiers are the same name.
pub open spec fn ids_distinct(ids: Seq<String>) -> bool {
    forall|i: int, j: int| 0 <= i < j < ids.len() ==> (#[trigger] ids[i]@) != (#[trigger] ids[j]@)
}

impl View for StackFrame {
    type V = Set<Seq<char>>;

    open spec fn view(&self) -> Set<Seq<char>> {
        names_set(self.identifiers@)
    }
}

impl StackFrame {
    pub fn new() -> (r: StackFrame)
        ensures
            r@ == Set::<Seq<char>>::empty(),
            r.identifiers@.len() == 0,
    {
        let r = StackFrame { identifiers: Vec::new() };
        proof {
            assert(r@ =~= Set::<Seq<char>>::empty());
        }
        r
    }
}

/// The model of a value stack: the models of its values, bottom first.
pub open spec fn stack_model(vs: Seq<Value>) -> Seq<ValModel> {
    vs.map_values(|v: Value| val_model(v))
}

/// The map held by an association sequence of names and value stacks; a later
/// entry with the same name wins.
pub open spec fn bindings_model(entries: Seq<(String, Vec<Value>)>) -> Map<Seq<char>, Seq<ValModel>>
    decreases entries.len(),
{
    if entries.len() == 0 {
        Map::empty()
    } else {
        bindings_model(entries.drop_last()).insert(entries.last().0@, stack_model(entries.last().1@))
    }
}

/// Mathematical model of the environment: the stack of frames, each the set
/// of names bound in it, and for each bound name the stack of its values.
#[verifier::ext_equal]
pub struct EnvModel {
    pub frames: Seq<Set<Seq<char>>>,
    pub bindings: Map<Seq<char>, Seq<ValModel>>,
}

/// How many frames bind the name.
pub open spec fn frames_count(frames: Seq<Set<Seq<char>>>, n: Seq<char>) -> nat
    decreases frames.len(),
{
    if frames.len() == 0 {
        0
    } else {
        frames_count(frames.drop_last(), n) + if frames.last().contains(n) { 1nat } else { 0nat }
    }
}

impl EnvModel {
    pub open spec fn empty() -> EnvModel {
        EnvModel { frames: Seq::empty(), bindings: Map::empty() }
    }

    pub open spec fn top(self) -> Set<Seq<char>> {
        self.frames.last()
    }

    /// The stack of values bound to the name, empty when unbound.
    pub open spec fn stack_of(self, name: Seq<char>) -> Seq<ValModel> {
        if self.bindings.dom().contains(name) {
            self.bindings[name]
        } else {
            Seq::empty()
        }
    }

    pub open spec fn push_frame(self) -> EnvModel {
        EnvModel { frames: self.frames.push(Set::empty()), bindings: self.bindings }
    }

    /// Binding a name: when the name is already bound in the top frame its
    /// top value is replaced in place; otherwise the top frame records the
    /// name and the value is pushed onto the name's stack.
    pub open spec fn bind(self, name: Seq<char>, v: ValModel) -> EnvModel {
        if self.frames.len() == 0 {
            self
        } else if self.top().contains(name) {
            let st = self.stack_of(name);
            if st.len() == 0 {
                self
            } else {
                EnvModel {
                    frames: self.frames,
                    bindings: self.bindings.insert(name, st.update(st.len() - 1, v)),
                }
            }
        } else {
            EnvModel {
                frames: self.frames.update(self.frames.len() - 1, self.top().insert(name)),
                bindings: self.bindings.insert(name, self.stack_of(name).push(v)),
            }
        }
    }

    /// The top of the name's stack, or nothing when the name is unbound.
    pub open spec fn lookup(self, name: Seq<char>) -> Option<ValModel> {
        if self.bindings.dom().contains(name) && self.bindings[name].len() > 0 {
            Option::Some(self.bindings[name].last())
        } else {
            Option::None
        }
    }

    /// The snapshot a block captures: for every bound name, the top of its
    /// stack.
    pub open spec fn image(self) -> Map<Seq<char>, ValModel> {
        Map::new(
            |n: Seq<char>| self.bindings.dom().contains(n) && self.bindings[n].len() > 0,
            |n: Seq<char>| self.bindings[n].last(),
        )
    }

    /// Popping a frame pops one value from the stack of each name the frame
    /// bound, removing names whose stacks become empty.
    pub open spec fn pop_frame(self) -> EnvModel {
        if self.frames.len() == 0 {
            self
        } else {
            let t = self.top();
            EnvModel {
                frames: self.frames.drop_last(),
                bindings: Map::new(
                    |n: Seq<char>|
                        self.bindings.dom().contains(n)
                        && (!t.contains(n) || self.bindings[n].len() > 1),
                    |n: Seq<char>|
                        if t.contains(n) {
                            self.bindings[n].drop_last()
                        } else {
                            self.bindings[n]
                        },
                ),
            }
        }
    }

    /// Every bound name has a non-empty stack whose depth is the number of
    /// frames that bind it, and every name bound in some frame is present.
    pub open spec fn wf(self) -> bool {
        &&& forall|n: Seq<char>| self.bindings.dom().contains(n)
            ==> (#[trigger] self.bindings[n]).len() == frames_count(self.frames, n)
                && self.bindings[n].len() > 0
        &&& forall|n: Seq<char>| frames_count(self.frames, n) > 0
            ==> self.bindings.dom().contains(n)
    }
}

/// The runtime environment: a stack of frames and, for each bound name, the
/// stack of values it has been bound to, innermost on top.
#[derive(Debug)]
pub struct Environment {
    pub stack_frames: Vec<StackFrame>,
    pub keys: Vec<(String, Vec<Value>)>,
}

pub open spec fn frames_model(fs: Seq<StackFrame>) -> Seq<Set<Seq<char>>> {
    fs.map_values(|f: StackFrame| f@)
}


pub broadcast proof fn lemma_frames_model_index(fs: Seq<StackFrame>, k: int)
    requires
        0 <= k < fs.len(),
    ensures
        frames_model(fs).len() == fs.len(),
        #[trigger] frames_model(fs)[k] == fs[k]@,
{
}

impl View for Environment {
    type V = EnvModel;

    open spec fn view(&self) -> EnvModel {
        EnvModel {
            frames: frames_model(self.stack_frames@),
            bindings: bindings_model(self.keys@),
        }
    }
}

impl Environment {
    /// The representation invariant tying the vectors to the model.
    pub open spec fn inv(self) -> bool {
        &&& forall|i: int, j: int| 0 <= i < j < self.keys@.len()
            ==> (#[trigger] self.keys@[i]).0@ != (#[trigger] self.keys@[j]).0@
        &&& forall|i: int| 0 <= i < self.keys@.len()
            ==> (#[trigger] self.keys@[i]).1@.len() > 0
        &&& forall|i: int| 0 <= i < self.keys@.len()
            ==> (#[trigger] self.keys@[i]).1@.len() == frames_count(self@.frames, self.keys@[i].0@)
        &&& forall|k: int| 0 <= k < self.stack_frames@.len()
            ==> ids_distinct((#[trigger] self.stack_frames@[k]).identifiers@)
        &&& forall|k: int, j: int|
            0 <= k < self.stack_frames@.len()
            && 0 <= j < self.stack_frames@[k].identifiers@.len()
            ==> exists|i: int| 0 <= i < self.keys@.len()
                && (#[trigger] self.keys@[i]).0@
                    == (#[trigger] self.stack_frames@[k].identifiers@[j])@
    }

    pub fn new() -> (r: Environment)
        ensures
            r@ == EnvModel::empty(),
            r.inv(),
    {
        let r = Environment { stack_frames: Vec::new(), keys: Vec::new() };
        proof {
            assert(r@.frames =~= Seq::<Set<Seq<char>>>::empty());
            assert(r@ =~= EnvModel::empty());
        }
        r
    }

    /// Opens a new, empty frame; invoked at the start of a block activation.
    pub fn push_stack_frame(&mut self)
        requires
            old(self).inv(),
        ensures
            final(self)@ == old(self)@.push_frame(),
            final(self).inv(),
    {
        self.stack_frames.push(StackFrame::new());
        proof {
            assert(self@.frames =~= old(self)@.frames.push(Set::empty()));
            assert(self@ =~= old(self)@.push_frame());
            assert forall|n: Seq<char>| true implies
                frames_count(self@.frames, n) == frames_count(old(self)@.frames, n) by {
                assert(self@.frames.drop_last() =~= old(self)@.frames);
            }
        }
    }

    /// Looks a name up; the result is a copy of the innermost value bound to
    /// it, or nothing when the name is unbound.
    pub fn lookup(&self, key: &String) -> (r: Option<Value>)
        requires
            self.inv(),
        ensures
            match r {
                Option::Some(v) => self@.lookup(key@) == Option::Some(v@),
                Option::None => self@.lookup(key@) == Option::<ValModel>::None,
            },
    {
        let idx_opt = find_key(&self.keys, key);
        match idx_opt {
            Option::Some(i) => {
                let stack = &self.keys[i].1;
                proof {
                    lemma_bindings_model_at(self.keys@, i as int);
                }
                if stack.len() == 0 {
                    proof {
                        lemma_bindings_model_still_contains(self.keys@, i as int);
                    }
                    Option::None
                } else {
                    let v = stack[stack.len() - 1].deep_clone();
                    proof {
                        lemma_bindings_model_still_contains(self.keys@, i as int);
                    }
                    Option::Some(v)
                }
            },
            Option::None => {
                proof {
                    lemma_bindings_model_dom(self.keys@, key@);
                }
                Option::None
            },
        }
    }

    /// Binds the name to the value in the current frame. When the name is
    /// already bound in that frame its value is replaced in place; otherwise
    /// the new binding shadows any outer one until the frame is popped.
    pub fn bind(&mut self, key: String, value: Value)
        requires
            old(self).inv(),
            old(self)@.frames.len() > 0,
        ensures
            final(self).inv(),
            final(self)@ == old(self)@.bind(key@, value@),
    {
        let ghost m0 = self@;
        let nframes = self.stack_frames.len();
        proof {
            assert(m0.frames.len() == self.stack_frames@.len());
            assert(m0.top() == self.stack_frames@.last()@);
            assert(m0.frames[nframes - 1] == self.stack_frames@[nframes - 1]@);
        }
        let in_top = contains_name(&self.stack_frames[nframes - 1].identifiers, &key);
        let idx_opt = find_key(&self.keys, &key);
        if in_top {
            let idx = match idx_opt {
                Option::Some(i) => i,
                Option::None => {
                    proof {
                        let ids = self.stack_frames@[nframes - 1].identifiers@;
                        let j = choose|j: int| 0 <= j < ids.len() && (#[trigger] ids[j])@ == key@;
                        assert(false);
                    }
                    vstd::pervasive::unreached()
                },
            };
            let mut entry = self.keys.remove(idx);
            let ghost st = stack_model(entry.1@);
            proof {
                lemma_bindings_model_at(old(self).keys@, idx as int);
                assert(st == m0.stack_of(key@));
                assert(st.len() == entry.1@.len());
            }
            entry.1.pop();
            entry.1.push(value);
            proof {
                assert(stack_model(entry.1@) =~= st.update(st.len() - 1, value@));
            }
            self.keys.push(entry);
            proof {
                lemma_bindings_model_remove(old(self).keys@, idx as int);
                lemma_bindings_model_push(old(self).keys@.remove(idx as int), entry);
                assert(self.keys@ == old(self).keys@.remove(idx as int).push(entry));
                assert(bindings_model(self.keys@)
                    =~= m0.bindings.insert(key@, st.update(st.len() - 1, value@)));
                assert(self@.frames == m0.frames);
                assert(self@ =~= m0.bind(key@, value@));
                // the invariant: entries keep their names, stacks, and counts
                let oldk = old(self).keys@;
                let newk = self.keys@;
                assert forall|i: int| 0 <= i < newk.len() implies
                    exists|i0: int| 0 <= i0 < oldk.len()
                        && (#[trigger] newk[i]).0@ == oldk[i0].0@
                        && newk[i].1@.len() == oldk[i0].1@.len() by {
                    if i == newk.len() - 1 {
                        assert(newk[i] == entry);
                        assert(newk[i].0@ == oldk[idx as int].0@);
                        assert(newk[i].1@.len() == oldk[idx as int].1@.len());
                    } else if i < idx {
                        assert(newk[i] == oldk[i]);
                    } else {
                        assert(newk[i] == oldk[i + 1]);
                    }
                }
                assert forall|i: int, j: int| 0 <= i < j < newk.len() implies
                    (#[trigger] newk[i]).0@ != (#[trigger] newk[j]).0@ by {
                    let a = if i < idx { i } else { i + 1 };
                    if j == newk.len() - 1 {
                        assert(newk[i] == oldk[a]);
                        assert(newk[j].0@ == oldk[idx as int].0@);
                        assert(a != idx);
                    } else {
                        let b = if j < idx { j } else { j + 1 };
                        assert(newk[i] == oldk[a]);
                        assert(newk[j] == oldk[b]);
                    }
                }
                assert forall|i: int| 0 <= i < newk.len() implies
                    (#[trigger] newk[i]).1@.len() > 0
                    && newk[i].1@.len() == frames_count(self@.frames, newk[i].0@) by {
                    if i == newk.len() - 1 {
                        assert(newk[i].0@ == oldk[idx as int].0@);
                        assert(newk[i].1@.len() == oldk[idx as int].1@.len());
                    } else if i < idx {
                        assert(newk[i] == oldk[i]);
                    } else {
                        assert(newk[i] == oldk[i + 1]);
                    }
                }
                assert forall|k: int, j: int|
                    0 <= k < self.stack_frames@.len()
                    && 0 <= j < self.stack_frames@[k].identifiers@.len()
                    implies exists|i: int| 0 <= i < newk.len()
                        && (#[trigger] newk[i]).0@
                            == (#[trigger] self.stack_frames@[k].identifiers@[j])@ by {
                    let n = (self.stack_frames@[k].identifiers@[j])@;
                    let i0 = choose|i0: int| 0 <= i0 < oldk.len() && (#[trigger] oldk[i0]).0@ == n;
                    if i0 == idx {
                        assert(newk[newk.len() - 1].0@ == n);
                    } else if i0 < idx {
                        assert(newk[i0].0@ == n);
                    } else {
                        assert(newk[i0 - 1].0@ == n);
                    }
                }
                assert(final(self).inv());
            }
        } else {
            // record the name in the top frame
            let frame_opt = self.stack_frames.pop();
            let mut frame = match frame_opt {
                Option::Some(f) => f,
                Option::None => vstd::pervasive::unreached(),
            };
            let ghost old_ids = frame.identifiers@;
            frame.identifiers.push(key.clone());
            self.stack_frames.push(frame);
            proof {
                lemma_names_set_push(old_ids, key);
                assert(self@.frames =~= m0.frames.update(m0.frames.len() - 1, m0.top().insert(key@)));
            }
            let ghost new_frames = self@.frames;
            // push the value onto the name's stack
            match idx_opt {
                Option::Some(idx) => {
                    let mut entry = self.keys.remove(idx);
                    let ghost st = stack_model(entry.1@);
                    proof {
                        lemma_bindings_model_at(old(self).keys@, idx as int);
                        assert(st == m0.stack_of(key@));
                    }
                    entry.1.push(value);
                    proof {
                        assert(stack_model(entry.1@) =~= st.push(value@));
                    }
                    self.keys.push(entry);
                    proof {
                        lemma_bindings_model_remove(old(self).keys@, idx as int);
                        lemma_bindings_model_push(old(self).keys@.remove(idx as int), entry);
                        assert(bindings_model(self.keys@)
                            =~= m0.bindings.insert(key@, st.push(value@)));
                        assert(self@ =~= m0.bind(key@, value@));
                    }
                },
                Option::None => {
                    let mut stack: Vec<Value> = Vec::new();
                    stack.push(value);
                    let ghost entry_ghost = (key, stack);
                    proof {
                        lemma_bindings_model_dom(old(self).keys@, key@);
                        assert(!m0.bindings.dom().contains(key@));
                        assert(m0.stack_of(key@) =~= Seq::<ValModel>::empty());
                    }
                    self.keys.push((key, stack));
                    proof {
                        lemma_bindings_model_push(old(self).keys@, self.keys@.last());
                        assert(stack_model(self.keys@.last().1@)
                            =~= m0.stack_of(self.keys@.last().0@).push(self.keys@.last().1@[0]@));
                        assert(bindings_model(self.keys@)
                            =~= m0.bindings.insert(self.keys@.last().0@,
                                m0.stack_of(self.keys@.last().0@).push(self.keys@.last().1@[0]@)));
                        assert(self@ =~= m0.bind(self.keys@.last().0@, value@));
                    }
                },
            }
            proof {
                let oldk = old(self).keys@;
                let newk = self.keys@;
                let kname = newk.last().0@;
                assert(kname == key@);
                assert(!m0.top().contains(key@));
                // counts under the updated frame stack
                assert forall|n: Seq<char>| true implies
                    frames_count(new_frames, n)
                        == frames_count(m0.frames, n) + if n == key@ { 1nat } else { 0nat } by {
                    lemma_frames_count_update_last(m0.frames, m0.top().insert(key@), n);
                    assert(frames_count(m0.frames, n)
                        == frames_count(m0.frames.drop_last(), n)
                            + if m0.top().contains(n) { 1nat } else { 0nat });
                }
                // distinctness and stack facts carry over entry by entry
                assert forall|i: int, j: int| 0 <= i < j < newk.len() implies
                    (#[trigger] newk[i]).0@ != (#[trigger] newk[j]).0@ by {
                    match idx_opt {
                        Option::Some(idx) => {
                            let a = if i < idx { i } else { i + 1 };
                            if j == newk.len() - 1 {
                                assert(newk[i] == oldk[a]);
                                assert(newk[j].0@ == oldk[idx as int].0@);
                            } else {
                                let b = if j < idx { j } else { j + 1 };
                                assert(newk[i] == oldk[a]);
                                assert(newk[j] == oldk[b]);
                            }
                        },
                        Option::None => {
                            if j == newk.len() - 1 {
                                assert(newk[i] == oldk[i]);
                                assert(newk[j].0@ == key@);
                            } else {
                                assert(newk[i] == oldk[i]);
                                assert(newk[j] == oldk[j]);
                            }
                        },
                    }
                }
                assert forall|i: int| 0 <= i < newk.len() implies
                    (#[trigger] newk[i]).1@.len() > 0
                    && newk[i].1@.len() == frames_count(self@.frames, newk[i].0@) by {
                    if i == newk.len() - 1 {
                        match idx_opt {
                            Option::Some(idx) => {
                                assert(newk[i].0@ == oldk[idx as int].0@);
                                assert(newk[i].1@.len() == oldk[idx as int].1@.len() + 1);
                            },
                            Option::None => {
                                assert(newk[i].1@.len() == 1);
                                lemma_bindings_model_dom(oldk, key@);
                                if frames_count(m0.frames, key@) > 0 {
                                    lemma_frames_count_pos(m0.frames, key@);
                                    let kk = choose|kk: int|
                                        0 <= kk < m0.frames.len() && (#[trigger] m0.frames[kk]).contains(key@);
                                    assert(m0.frames[kk] == old(self).stack_frames@[kk]@);
                                    let ids2 = old(self).stack_frames@[kk].identifiers@;
                                    let j2 = choose|j2: int|
                                        0 <= j2 < ids2.len() && (#[trigger] ids2[j2])@ == key@;
                                    assert(false);
                                }
                            },
                        }
                    } else {
                        match idx_opt {
                            Option::Some(idx) => {
                                let a = if i < idx { i } else { i + 1 };
                                assert(newk[i] == oldk[a]);
                                assert(newk[i].0@ != key@);
                            },
                            Option::None => {
                                assert(newk[i] == oldk[i]);
                                assert(newk[i].0@ != key@);
                            },
                        }
                    }
                }
                assert forall|k: int| 0 <= k < self.stack_frames@.len()
                    implies ids_distinct((#[trigger] self.stack_frames@[k]).identifiers@) by {
                    if k == self.stack_frames@.len() - 1 {
                        let ids = self.stack_frames@[k].identifiers@;
                        assert(ids =~= old_ids.push(key));
                        assert forall|a: int, b: int| 0 <= a < b < ids.len() implies
                            (#[trigger] ids[a]@) != (#[trigger] ids[b]@) by {
                            if b == ids.len() - 1 {
                                assert(ids[a] == old_ids[a]);
                                assert(!names_set(old_ids).contains(key@));
                                assert(names_set(old_ids).contains(old_ids[a]@) || true);
                                if old_ids[a]@ == key@ {
                                    assert(names_set(old_ids).contains(key@));
                                    assert(false);
                                }
                            } else {
                                assert(ids[a] == old_ids[a]);
                                assert(ids[b] == old_ids[b]);
                                assert(ids_distinct(old_ids));
                            }
                        }
                    } else {
                        assert(self.stack_frames@[k] == old(self).stack_frames@[k]);
                    }
                }
                assert forall|k: int, j: int|
                    0 <= k < self.stack_frames@.len()
                    && 0 <= j < self.stack_frames@[k].identifiers@.len()
                    implies exists|i: int| 0 <= i < newk.len()
                        && (#[trigger] newk[i]).0@
                            == (#[trigger] self.stack_frames@[k].identifiers@[j])@ by {
                    let n = (self.stack_frames@[k].identifiers@[j])@;
                    if k == self.stack_frames@.len() - 1 && j == self.stack_frames@[k].identifiers@.len() - 1 {
                        assert(n == key@);
                        assert(newk[newk.len() - 1].0@ == n);
                    } else {
                        assert(old(self).stack_frames@[k].identifiers@[j]@ == n);
                        let i0 = choose|i0: int| 0 <= i0 < oldk.len() && (#[trigger] oldk[i0]).0@ == n;
                        match idx_opt {
                            Option::Some(idx) => {
                                if i0 == idx {
                                    assert(newk[newk.len() - 1].0@ == n);
                                } else if i0 < idx {
                                    assert(newk[i0].0@ == n);
                                } else {
                                    assert(newk[i0 - 1].0@ == n);
                                }
                            },
                            Option::None => {
                                assert(newk[i0].0@ == n);
                            },
                        }
                    }
                }
                assert(final(self).inv());
            }
        }
    }

    /// Closes the current frame: every name the frame bound loses one value,
    /// and names whose stacks become empty disappear, so the outer bindings
    /// are restored exactly. Fails only when no frame is open.
    pub fn pop_stack_frame(&mut self) -> (r: Result<(), ()>)
        requires
            old(self).inv(),
        ensures
            final(self).inv(),
            match r {
                Result::Ok(u) => old(self)@.frames.len() > 0
                    && final(self)@ == old(self)@.pop_frame(),
                Result::Err(e) => old(self)@.frames.len() == 0
                    && final(self)@ == old(self)@,
            },
    {
        let ghost m0 = self@;
        proof {
            lemma_inv_implies_wf(*old(self));
        }
        let frame_opt = self.stack_frames.pop();
        let frame = match frame_opt {
            Option::Some(f) => f,
            Option::None => {
                proof {
                    assert(self@ =~= m0);
                }
                return Result::Err(());
            },
        };
        let ghost sf = self.stack_frames@;
        let ghost new_frames = frames_model(sf);
        let ghost ids_v = frame.identifiers@.map_values(|s: String| s@);
        proof {
            assert(new_frames =~= m0.frames.drop_last());
            assert(frame == old(self).stack_frames@.last());
            assert(m0.top() == old(self).stack_frames@.last()@);
            assert(ids_distinct(frame.identifiers@));
            assert forall|i: int, j: int| 0 <= i < j < ids_v.len() implies
                (#[trigger] ids_v[i]) != (#[trigger] ids_v[j]) by {
                assert(ids_v[i] == frame.identifiers@[i]@);
                assert(ids_v[j] == frame.identifiers@[j]@);
            }
            assert forall|j: int| 0 <= j < ids_v.len() implies
                m0.top().contains(#[trigger] ids_v[j]) by {
                assert(frame.identifiers@[j]@ == ids_v[j]);
            }
        }
        let mut k: usize = 0;
        while k < frame.identifiers.len()
            invariant
                old(self).inv(),
                m0 == old(self)@,
                m0.wf(),
                m0.frames.len() > 0,
                m0.top() == old(self).stack_frames@.last()@,
                k <= frame.identifiers@.len(),
                ids_v == frame.identifiers@.map_values(|s: String| s@),
                ids_v.len() == frame.identifiers@.len(),
                forall|i: int, j: int| 0 <= i < j < ids_v.len()
                    ==> (#[trigger] ids_v[i]) != (#[trigger] ids_v[j]),
                forall|j: int| 0 <= j < ids_v.len() ==> #[trigger] ids_v[j] == frame.identifiers@[j]@,
                forall|j: int| 0 <= j < ids_v.len() ==> m0.top().contains(#[trigger] ids_v[j]),
                self.stack_frames@ == sf,
                bindings_model(self.keys@) == pop_names(m0.bindings, ids_v.take(k as int)),
                forall|i: int, j: int| 0 <= i < j < self.keys@.len()
                    ==> (#[trigger] self.keys@[i]).0@ != (#[trigger] self.keys@[j]).0@,
            decreases frame.identifiers@.len() - k,
        {
            let ghost keys0 = self.keys@;
            let ghost bm0 = bindings_model(keys0);
            let ghost name = ids_v[k as int];
            proof {
                lemma_pop_names_map(m0.bindings, ids_v.take(k as int));
                assert forall|j: int| 0 <= j < k implies
                    #[trigger] ids_v.take(k as int)[j] == ids_v[j] by {}
                assert(!ids_v.take(k as int).contains(name)) by {
                    if ids_v.take(k as int).contains(name) {
                        let j = choose|j: int|
                            0 <= j < k && #[trigger] ids_v.take(k as int)[j] == name;
                        assert(ids_v[j] == ids_v[k as int]);
                    }
                }
                assert(m0.bindings.dom().contains(name)) by {
                    lemma_frames_count_pos(m0.frames, name);
                    assert(m0.frames[m0.frames.len() - 1].contains(name));
                }
                assert(bm0.dom().contains(name));
                assert(bm0[name] == m0.bindings[name]);
                assert(bm0[name].len() >= 1);
                lemma_bindings_model_dom(keys0, name);
            }
            let idx = match find_key(&self.keys, &frame.identifiers[k]) {
                Option::Some(i) => i,
                Option::None => {
                    proof {
                        assert(false);
                    }
                    vstd::pervasive::unreached()
                },
            };
            let mut entry = self.keys.remove(idx);
            let ghost st = stack_model(entry.1@);
            proof {
                lemma_bindings_model_at(keys0, idx as int);
                assert(bm0[name] == st);
                assert(st.len() == entry.1@.len());
                assert(entry.1@.len() >= 1);
            }
            entry.1.pop();
            if entry.1.len() > 0 {
                proof {
                    assert(stack_model(entry.1@) =~= st.drop_last());
                }
                self.keys.push(entry);
                proof {
                    lemma_bindings_model_remove(keys0, idx as int);
                    lemma_bindings_model_push(keys0.remove(idx as int), entry);
                    assert(bindings_model(self.keys@) =~= pop_one(bm0, name));
                }
            } else {
                proof {
                    lemma_bindings_model_remove(keys0, idx as int);
                    assert(st.len() == 1);
                    assert(bindings_model(self.keys@) =~= pop_one(bm0, name));
                }
            }
            proof {
                lemma_pop_names_snoc(m0.bindings, ids_v.take(k as int), name);
                assert(ids_v.take(k as int).push(name) =~= ids_v.take(k as int + 1));
                let newk = self.keys@;
                let kept = entry.1@.len() > 0;
                assert forall|i: int, j: int| 0 <= i < j < newk.len() implies
                    (#[trigger] newk[i]).0@ != (#[trigger] newk[j]).0@ by {
                    let a = if i < idx { i } else { i + 1 };
                    assert(keys0.remove(idx as int)[i] == keys0[a]);
                    if kept && j == newk.len() - 1 {
                        assert(newk[j].0@ == keys0[idx as int].0@);
                    } else {
                        let b = if j < idx { j } else { j + 1 };
                        assert(keys0.remove(idx as int)[j] == keys0[b]);
                    }
                }
            }
            k = k + 1;
        }
        proof {
            assert(ids_v.take(ids_v.len() as int) =~= ids_v);
            lemma_pop_names_map(m0.bindings, ids_v);
            let target = m0.pop_frame();
            assert forall|n: Seq<char>| #[trigger] ids_v.contains(n)
                implies m0.top().contains(n) by {
                let j = choose|j: int| 0 <= j < ids_v.len() && ids_v[j] == n;
            }
            assert forall|n: Seq<char>| #[trigger] m0.top().contains(n)
                implies ids_v.contains(n) by {
                let ids = frame.identifiers@;
                let j = choose|j: int| 0 <= j < ids.len() && (#[trigger] ids[j])@ == n;
                assert(ids_v[j] == n);
            }
            let bm = bindings_model(self.keys@);
            assert(bm =~= target.bindings);
            assert(self@ =~= target);
            // the representation invariant, from the model of the result
            let newk = self.keys@;
            assert forall|i: int| 0 <= i < newk.len() implies
                (#[trigger] newk[i]).1@.len() > 0
                && newk[i].1@.len() == frames_count(self@.frames, newk[i].0@) by {
                let n = newk[i].0@;
                lemma_bindings_model_at(newk, i);
                lemma_bindings_model_dom(newk, n);
                assert(bm.dom().contains(n));
                assert(m0.bindings.dom().contains(n));
                assert(m0.bindings[n].len() == frames_count(m0.frames, n));
                assert(frames_count(m0.frames, n)
                    == frames_count(new_frames, n)
                        + if m0.top().contains(n) { 1nat } else { 0nat }) by {
                    assert(m0.frames.drop_last() =~= new_frames);
                    assert(m0.frames.last() == m0.top());
                }
                assert(stack_model(newk[i].1@).len() == newk[i].1@.len());
            }
            assert forall|kk: int| 0 <= kk < self.stack_frames@.len()
                implies ids_distinct((#[trigger] self.stack_frames@[kk]).identifiers@) by {
                assert(self.stack_frames@[kk] == old(self).stack_frames@[kk]);
            }
            assert forall|kk: int, jj: int|
                0 <= kk < self.stack_frames@.len()
                && 0 <= jj < self.stack_frames@[kk].identifiers@.len()
                implies exists|i: int| 0 <= i < newk.len()
                    && (#[trigger] newk[i]).0@
                        == (#[trigger] self.stack_frames@[kk].identifiers@[jj])@ by {
                let n = (self.stack_frames@[kk].identifiers@[jj])@;
                assert(frames_count(new_frames, n) > 0) by {
                    lemma_frames_count_pos(new_frames, n);
                    lemma_frames_model_index(sf, kk);
                    assert(new_frames[kk].contains(n)) by {
                        assert(sf[kk].identifiers@[jj]@ == n);
                    }
                }
                assert(frames_count(m0.frames, n) > frames_count(new_frames, n) - 1) by {
                    assert(m0.frames.drop_last() =~= new_frames);
                }
                assert(m0.bindings.dom().contains(n));
                assert(target.bindings.dom().contains(n)) by {
                    if m0.top().contains(n) {
                        assert(m0.bindings[n].len() == frames_count(m0.frames, n));
                        assert(m0.frames.drop_last() =~= new_frames);
                        assert(m0.bindings[n].len() > 1);
                    }
                }
                assert(bm.dom().contains(n));
                lemma_bindings_model_dom(newk, n);
            }
            assert(final(self).inv());
        }
        Result::Ok(())
    }

    /// The most recent set of bindings: for each bound name, a copy of the
    /// top of its stack. This is the snapshot a block captures.
    pub fn image(&self) -> (r: Vec<(String, Value)>)
        requires
            self.inv(),
        ensures
            crate::value::image_model(r) == self@.image(),
            forall|i: int, j: int| 0 <= i < j < r@.len()
                ==> (#[trigger] r@[i]).0@ != (#[trigger] r@[j]).0@,
    {
        let mut r: Vec<(String, Value)> = Vec::new();
        let mut i: usize = 0;
        while i < self.keys.len()
            invariant
                self.inv(),
                i <= self.keys@.len(),
                r@.len() == i,
                forall|j: int| 0 <= j < i ==> (#[trigger] r@[j]).0@ == self.keys@[j].0@,
                forall|j: int| 0 <= j < i ==> self.keys@[j].1@.len() > 0
                    && val_model((#[trigger] r@[j]).1) == val_model(self.keys@[j].1@.last()),
            decreases self.keys@.len() - i,
        {
            let name = self.keys[i].0.clone();
            let stack = &self.keys[i].1;
            let v = stack[stack.len() - 1].deep_clone();
            r.push((name, v));
            i = i + 1;
        }
        proof {
            crate::value::lemma_image_model_is_seq(r);
            let rs = r@;
            let m = self@.image();
            assert forall|j: int| 0 <= j < rs.len() implies
                self@.bindings.dom().contains((#[trigger] rs[j]).0@)
                && self@.bindings[rs[j].0@] == stack_model(self.keys@[j].1@)
                by {
                lemma_bindings_model_at(self.keys@, j);
            }
            assert forall|i1: int, j1: int| 0 <= i1 < j1 < rs.len() implies
                (#[trigger] rs[i1]).0@ != (#[trigger] rs[j1]).0@ by {
            }
            assert forall|n: Seq<char>| #[trigger] crate::value::image_model_seq(rs).dom().contains(n)
                implies m.dom().contains(n) && crate::value::image_model_seq(rs)[n] == m[n] by {
                crate::value::lemma_image_model_dom(rs, n);
                let j = choose|j: int| 0 <= j < rs.len() && (#[trigger] rs[j]).0@ == n;
                crate::value::lemma_image_model_at(rs, j);
                assert(self@.bindings[n].last()
                    == stack_model(self.keys@[j].1@).last());
                assert(stack_model(self.keys@[j].1@).last()
                    == val_model(self.keys@[j].1@.last()));
            }
            assert forall|n: Seq<char>| #[trigger] m.dom().contains(n)
                implies crate::value::image_model_seq(rs).dom().contains(n) by {
                lemma_bindings_model_dom(self.keys@, n);
                let j = choose|j: int| 0 <= j < self.keys@.len()
                    && (#[trigger] self.keys@[j]).0@ == n;
                crate::value::lemma_image_model_dom(rs, n);
                assert(rs[j].0@ == n);
            }
            assert(crate::value::image_model_seq(rs) =~= m);
        }
        r
    }
}

/// The index of the entry for the name, when one exists.
fn find_key(keys: &Vec<(String, Vec<Value>)>, key: &String) -> (r: Option<usize>)
    ensures
        match r {
            Option::Some(i) => i < keys@.len() && keys@[i as int].0@ == key@,
            Option::None => forall|j: int| 0 <= j < keys@.len() ==> (#[trigger] keys@[j]).0@ != key@,
        },
{
    let mut i: usize = 0;
    while i < keys.len()
        invariant
            i <= keys@.len(),
            forall|j: int| 0 <= j < i ==> (#[trigger] keys@[j]).0@ != key@,
        decreases keys@.len() - i,
    {
        if keys[i].0 == *key {
            return Option::Some(i);
        }
        i = i + 1;
    }
    Option::None
}

/// Whether the identifiers hold the name.
fn contains_name(ids: &Vec<String>, key: &String) -> (r: bool)
    ensures
        r == names_set(ids@).contains(key@),
{
    let mut i: usize = 0;
    while i < ids.len()
        invariant
            i <= ids@.len(),
            forall|j: int| 0 <= j < i ==> (#[trigger] ids@[j])@ != key@,
        decreases ids@.len() - i,
    {
        if ids[i] == *key {
            proof {
                assert(names_set(ids@).contains(key@));
            }
            return true;
        }
        i = i + 1;
    }
    proof {
        assert(!names_set(ids@).contains(key@));
    }
    false
}

/// A name is in the map's domain exactly when some entry holds it.
pub proof fn lemma_bindings_model_dom(entries: Seq<(String, Vec<Value>)>, n: Seq<char>)
    ensures
        bindings_model(entries).dom().contains(n)
            <==> exists|i: int| 0 <= i < entries.len() && (#[trigger] entries[i]).0@ == n,
    decreases entries.len(),
{
    if entries.len() > 0 {
        lemma_bindings_model_dom(entries.drop_last(), n);
        if bindings_model(entries).dom().contains(n) {
            if entries.last().0@ != n {
                let i = choose|i: int|
                    0 <= i < entries.drop_last().len() && (#[trigger] entries.drop_last()[i]).0@ == n;
                assert(entries[i].0@ == n);
            }
        }
        if exists|i: int| 0 <= i < entries.len() && (#[trigger] entries[i]).0@ == n {
            let i = choose|i: int| 0 <= i < entries.len() && (#[trigger] entries[i]).0@ == n;
            if i < entries.len() - 1 {
                assert(entries.drop_last()[i].0@ == n);
            }
        }
    }
}

/// With distinct names, the map sends each entry's name to that entry's
/// stack.
pub proof fn lemma_bindings_model_at(entries: Seq<(String, Vec<Value>)>, i: int)
    requires
        0 <= i < entries.len(),
        forall|a: int, b: int| 0 <= a < b < entries.len()
            ==> (#[trigger] entries[a]).0@ != (#[trigger] entries[b]).0@,
    ensures
        bindings_model(entries).dom().contains(entries[i].0@),
        bindings_model(entries)[entries[i].0@] == stack_model(entries[i].1@),
    decreases entries.len(),
{
    if i == entries.len() - 1 {
    } else {
        lemma_bindings_model_at(entries.drop_last(), i);
        assert(entries.drop_last()[i] == entries[i]);
    }
}

proof fn lemma_bindings_model_still_contains(entries: Seq<(String, Vec<Value>)>, i: int)
    requires
        0 <= i < entries.len(),
    ensures
        bindings_model(entries).dom().contains(entries[i].0@),
    decreases entries.len(),
{
    if i < entries.len() - 1 {
        lemma_bindings_model_still_contains(entries.drop_last(), i);
        assert(entries.drop_last()[i] == entries[i]);
    }
}



/// A name is counted only when some frame binds it.
pub proof fn lemma_frames_count_pos(frames: Seq<Set<Seq<char>>>, n: Seq<char>)
    ensures
        frames_count(frames, n) > 0
            <==> exists|k: int| 0 <= k < frames.len() && (#[trigger] frames[k]).contains(n),
    decreases frames.len(),
{
    if frames.len() > 0 {
        lemma_frames_count_pos(frames.drop_last(), n);
        if frames.last().contains(n) {
            assert(frames[frames.len() - 1].contains(n));
        } else if frames_count(frames, n) > 0 {
            let k = choose|k: int|
                0 <= k < frames.drop_last().len() && (#[trigger] frames.drop_last()[k]).contains(n);
            assert(frames[k].contains(n));
        } else {
            if exists|k: int| 0 <= k < frames.len() && (#[trigger] frames[k]).contains(n) {
                let k = choose|k: int| 0 <= k < frames.len() && (#[trigger] frames[k]).contains(n);
                assert(k < frames.len() - 1);
                assert(frames.drop_last()[k].contains(n));
            }
        }
    }
}


/// Popping one name: one value leaves its stack; an emptied stack removes the
/// name.
pub open spec fn pop_one(
    b: Map<Seq<char>, Seq<ValModel>>,
    n: Seq<char>,
) -> Map<Seq<char>, Seq<ValModel>> {
    if b.dom().contains(n) {
        if b[n].len() <= 1 {
            b.remove(n)
        } else {
            b.insert(n, b[n].drop_last())
        }
    } else {
        b
    }
}

/// Popping a sequence of names in order.
pub open spec fn pop_names(
    b: Map<Seq<char>, Seq<ValModel>>,
    names: Seq<Seq<char>>,
) -> Map<Seq<char>, Seq<ValModel>>
    decreases names.len(),
{
    if names.len() == 0 {
        b
    } else {
        pop_names(pop_one(b, names.first()), names.drop_first())
    }
}

pub proof fn lemma_pop_names_snoc(
    b: Map<Seq<char>, Seq<ValModel>>,
    names: Seq<Seq<char>>,
    n: Seq<char>,
)
    ensures
        pop_names(b, names.push(n)) == pop_one(pop_names(b, names), n),
    decreases names.len(),
{
    if names.len() == 0 {
        assert(names.push(n).first() == n);
        assert(names.push(n).drop_first() =~= Seq::<Seq<char>>::empty());
        assert(pop_names(b, names.push(n))
            == pop_names(pop_one(b, n), names.push(n).drop_first()));
        assert(pop_names(pop_one(b, n), Seq::<Seq<char>>::empty()) == pop_one(b, n));
        assert(pop_names(b, names) == b);
    } else {
        assert(names.push(n).first() == names.first());
        assert(names.push(n).drop_first() =~= names.drop_first().push(n));
        lemma_pop_names_snoc(pop_one(b, names.first()), names.drop_first(), n);
    }
}

/// Popping distinct names pops one value from each of their stacks and leaves
/// all other names alone.
pub proof fn lemma_pop_names_map(b: Map<Seq<char>, Seq<ValModel>>, names: Seq<Seq<char>>)
    requires
        forall|i: int, j: int| 0 <= i < j < names.len()
            ==> (#[trigger] names[i]) != (#[trigger] names[j]),
    ensures
        pop_names(b, names) == Map::new(
            |n: Seq<char>| b.dom().contains(n) && (!names.contains(n) || b[n].len() > 1),
            |n: Seq<char>| if names.contains(n) { b[n].drop_last() } else { b[n] },
        ),
    decreases names.len(),
{
    let target = Map::new(
        |n: Seq<char>| b.dom().contains(n) && (!names.contains(n) || b[n].len() > 1),
        |n: Seq<char>| if names.contains(n) { b[n].drop_last() } else { b[n] },
    );
    if names.len() == 0 {
        assert(pop_names(b, names) =~= target);
    } else {
        let n0 = names.first();
        let rest = names.drop_first();
        let b1 = pop_one(b, n0);
        assert forall|i: int, j: int| 0 <= i < j < rest.len() implies
            (#[trigger] rest[i]) != (#[trigger] rest[j]) by {
            assert(names[i + 1] == rest[i]);
            assert(names[j + 1] == rest[j]);
        }
        lemma_pop_names_map(b1, rest);
        let target1 = Map::new(
            |n: Seq<char>| b1.dom().contains(n) && (!rest.contains(n) || b1[n].len() > 1),
            |n: Seq<char>| if rest.contains(n) { b1[n].drop_last() } else { b1[n] },
        );
        assert(pop_names(b, names) == target1);
        assert forall|i: int| 0 < i < names.len() implies names[i] != n0 by {
        }
        assert forall|n: Seq<char>| #[trigger] names.contains(n)
            implies (n == n0 || rest.contains(n)) by {
            let i = choose|i: int| 0 <= i < names.len() && names[i] == n;
            if i > 0 {
                assert(rest[i - 1] == n);
            }
        }
        assert forall|n: Seq<char>| #[trigger] rest.contains(n) implies names.contains(n) by {
            let i = choose|i: int| 0 <= i < rest.len() && rest[i] == n;
            assert(names[i + 1] == n);
        }
        assert(!rest.contains(n0));
        assert(names.contains(n0)) by {
            assert(names[0] == n0);
        }
        assert forall|n: Seq<char>| #[trigger] target.dom().contains(n)
            implies target1.dom().contains(n) && target1[n] == target[n] by {
            if n == n0 {
                assert(b.dom().contains(n) && b[n].len() > 1);
                assert(b1 == b.insert(n0, b[n0].drop_last()));
            } else {
                assert(b1.dom().contains(n) == b.dom().contains(n));
                if b1.dom().contains(n) {
                    assert(b1[n] == b[n]);
                }
            }
        }
        assert forall|n: Seq<char>| #[trigger] target1.dom().contains(n)
            implies target.dom().contains(n) by {
            if n == n0 {
                assert(b.dom().contains(n0));
                assert(b[n0].len() > 1);
            } else {
                if b1.dom().contains(n) {
                    assert(b.dom().contains(n));
                    assert(b1[n] == b[n]);
                }
            }
        }
        assert(target1 =~= target);
    }
}

/// Appending an entry inserts its name into the map.
pub proof fn lemma_bindings_model_push(entries: Seq<(String, Vec<Value>)>, e: (String, Vec<Value>))
    ensures
        bindings_model(entries.push(e)) == bindings_model(entries).insert(e.0@, stack_model(e.1@)),
{
    assert(entries.push(e).drop_last() =~= entries);
    assert(entries.push(e).last() == e);
}

/// With distinct names, removing an entry removes its name from the map.
pub proof fn lemma_bindings_model_remove(entries: Seq<(String, Vec<Value>)>, i: int)
    requires
        0 <= i < entries.len(),
        forall|a: int, b: int| 0 <= a < b < entries.len()
            ==> (#[trigger] entries[a]).0@ != (#[trigger] entries[b]).0@,
    ensures
        bindings_model(entries.remove(i)) == bindings_model(entries).remove(entries[i].0@),
    decreases entries.len(),
{
    if i == entries.len() - 1 {
        assert(entries.remove(i) =~= entries.drop_last());
        lemma_bindings_model_dom(entries.drop_last(), entries[i].0@);
        assert forall|a: int| 0 <= a < entries.drop_last().len()
            implies (#[trigger] entries.drop_last()[a]).0@ != entries[i].0@ by {
            assert(entries[a] == entries.drop_last()[a]);
        }
        assert(!bindings_model(entries.drop_last()).dom().contains(entries[i].0@));
        assert(bindings_model(entries.drop_last()).insert(
            entries[i].0@, stack_model(entries[i].1@)).remove(entries[i].0@)
            =~= bindings_model(entries.drop_last()));
    } else {
        assert(entries.remove(i).drop_last() =~= entries.drop_last().remove(i));
        assert(entries.remove(i).last() == entries.last());
        lemma_bindings_model_remove(entries.drop_last(), i);
        assert(entries.drop_last()[i] == entries[i]);
        assert(bindings_model(entries.remove(i)) ==
            bindings_model(entries.drop_last()).remove(entries[i].0@)
                .insert(entries.last().0@, stack_model(entries.last().1@)));
        assert(entries[i].0@ != entries.last().0@);
        assert(bindings_model(entries.drop_last()).remove(entries[i].0@)
                .insert(entries.last().0@, stack_model(entries.last().1@))
            =~= bindings_model(entries).remove(entries[i].0@));
    }
}

/// Pushing a name onto the identifiers inserts it into the name set.
pub proof fn lemma_names_set_push(ids: Seq<String>, id: String)
    ensures
        names_set(ids.push(id)) == names_set(ids).insert(id@),
{
    assert forall|n: Seq<char>| names_set(ids.push(id)).contains(n)
        implies names_set(ids).insert(id@).contains(n) by {
        let i = choose|i: int| 0 <= i < ids.push(id).len() && ids.push(id)[i]@ == n;
        if i < ids.len() {
            assert(ids[i]@ == n);
        }
    }
    assert forall|n: Seq<char>| names_set(ids).insert(id@).contains(n)
        implies names_set(ids.push(id)).contains(n) by {
        if n == id@ {
            assert(ids.push(id)[ids.len() as int]@ == n);
        } else {
            let i = choose|i: int| 0 <= i < ids.len() && ids[i]@ == n;
            assert(ids.push(id)[i]@ == n);
        }
    }
    assert(names_set(ids.push(id)) =~= names_set(ids).insert(id@));
}

/// Replacing the top frame leaves the counts of names it does not mention
/// unchanged, and adjusts the counts of those it does.
pub proof fn lemma_frames_count_update_last(
    frames: Seq<Set<Seq<char>>>,
    t: Set<Seq<char>>,
    n: Seq<char>,
)
    requires
        frames.len() > 0,
    ensures
        frames_count(frames.update(frames.len() - 1, t), n)
            == frames_count(frames.drop_last(), n) + if t.contains(n) { 1nat } else { 0nat },
{
    let updated = frames.update(frames.len() - 1, t);
    assert(updated.drop_last() =~= frames.drop_last());
    assert(updated.last() == t);
}


/// The representation invariant gives the model invariant.
pub proof fn lemma_inv_implies_wf(env: Environment)
    requires
        env.inv(),
    ensures
        env@.wf(),
{
    assert forall|n: Seq<char>| env@.bindings.dom().contains(n)
        implies (#[trigger] env@.bindings[n]).len() == frames_count(env@.frames, n)
            && env@.bindings[n].len() > 0 by {
        lemma_bindings_model_dom(env.keys@, n);
        let i = choose|i: int| 0 <= i < env.keys@.len() && (#[trigger] env.keys@[i]).0@ == n;
        lemma_bindings_model_at(env.keys@, i);
    }
    assert forall|n: Seq<char>| frames_count(env@.frames, n) > 0
        implies env@.bindings.dom().contains(n) by {
        lemma_frames_count_pos(env@.frames, n);
        let k = choose|k: int| 0 <= k < env@.frames.len() && (#[trigger] env@.frames[k]).contains(n);
        assert(env@.frames[k] == env.stack_frames@[k]@);
        let ids = env.stack_frames@[k].identifiers@;
        let j = choose|j: int| 0 <= j < ids.len() && (#[trigger] ids[j])@ == n;
        lemma_bindings_model_dom(env.keys@, n);
    }
}


/// Binding the name and looking it up yields the value just bound.
pub proof fn lemma_bind_then_lookup(env: EnvModel, name: Seq<char>, v: ValModel)
    requires
        env.wf(),
        env.frames.len() > 0,
    ensures
        env.bind(name, v).lookup(name) == Option::Some(v),
{
    if env.top().contains(name) {
        assert(frames_count(env.frames, name) > 0);
        let st = env.stack_of(name);
        assert(st.len() > 0);
        assert(st.update(st.len() - 1, v).last() == v);
    } else {
        assert(env.stack_of(name).push(v).last() == v);
    }
}

/// A second bind of the same name in the same frame replaces the value in
/// place: the stack of values for that name does not grow.
pub proof fn lemma_rebind_does_not_grow(env: EnvModel, name: Seq<char>, v1: ValModel, v2: ValModel)
    requires
        env.wf(),
        env.frames.len() > 0,
    ensures
        env.bind(name, v1).bind(name, v2).stack_of(name).len()
            == env.bind(name, v1).stack_of(name).len(),
        env.bind(name, v1).bind(name, v2).lookup(name) == Option::Some(v2),
{
    let e1 = env.bind(name, v1);
    lemma_bind_preserves_wf(env, name, v1);
    if env.top().contains(name) {
        assert(frames_count(env.frames, name) > 0);
        assert(env.stack_of(name).len() > 0);
        assert(e1.top().contains(name));
    } else {
        assert(e1.top() == env.top().insert(name));
        assert(e1.top().contains(name));
    }
    assert(e1.stack_of(name).len() > 0);
    let st1 = e1.stack_of(name);
    assert(e1.bind(name, v2).stack_of(name) == st1.update(st1.len() - 1, v2));
    assert(st1.update(st1.len() - 1, v2).last() == v2);
}


/// Binding one name leaves every other name's lookup unchanged.
pub proof fn lemma_bind_lookup_other(env: EnvModel, n1: Seq<char>, v: ValModel, n2: Seq<char>)
    requires
        n1 != n2,
    ensures
        env.bind(n1, v).lookup(n2) == env.lookup(n2),
{
}

/// Binding preserves the environment invariant and the number of frames.
pub proof fn lemma_bind_preserves_wf(env: EnvModel, name: Seq<char>, v: ValModel)
    requires
        env.wf(),
        env.frames.len() > 0,
    ensures
        env.bind(name, v).wf(),
        env.bind(name, v).frames.len() == env.frames.len(),
{
    let e1 = env.bind(name, v);
    if env.top().contains(name) {
        assert(frames_count(env.frames, name) > 0);
        let st = env.stack_of(name);
        assert(st.len() > 0);
        assert(e1.frames == env.frames);
        assert forall|n: Seq<char>| e1.bindings.dom().contains(n)
            implies (#[trigger] e1.bindings[n]).len() == frames_count(e1.frames, n)
                && e1.bindings[n].len() > 0 by {
            if n != name {
                assert(e1.bindings[n] == env.bindings[n]);
            }
        }
    } else {
        let t1 = env.top().insert(name);
        assert(e1.frames == env.frames.update(env.frames.len() - 1, t1));
        assert forall|n: Seq<char>| true implies
            frames_count(e1.frames, n)
                == frames_count(env.frames, n) + if n == name { 1nat } else { 0nat } by {
            lemma_frames_count_update_last(env.frames, t1, n);
            assert(frames_count(env.frames, n)
                == frames_count(env.frames.drop_last(), n)
                    + if env.top().contains(n) { 1nat } else { 0nat });
        }
        assert forall|n: Seq<char>| e1.bindings.dom().contains(n)
            implies (#[trigger] e1.bindings[n]).len() == frames_count(e1.frames, n)
                && e1.bindings[n].len() > 0 by {
            if n == name {
                if env.bindings.dom().contains(name) {
                    assert(e1.bindings[name] == env.bindings[name].push(v));
                } else {
                    assert(frames_count(env.frames, name) == 0);
                    assert(e1.bindings[name] == Seq::<ValModel>::empty().push(v));
                }
            } else {
                assert(e1.bindings[n] == env.bindings[n]);
            }
        }
        assert forall|n: Seq<char>| frames_count(e1.frames, n) > 0
            implies e1.bindings.dom().contains(n) by {
            if n != name {
                assert(frames_count(env.frames, n) > 0);
            }
        }
    }
}

/// Opening a frame preserves the environment invariant.
pub proof fn lemma_push_preserves_wf(env: EnvModel)
    requires
        env.wf(),
    ensures
        env.push_frame().wf(),
{
    assert forall|n: Seq<char>| true implies
        frames_count(env.push_frame().frames, n) == frames_count(env.frames, n) by {
        assert(env.push_frame().frames.drop_last() =~= env.frames);
        assert(!env.push_frame().frames.last().contains(n));
    }
}

/// Binding in the top frame leaves no trace once that frame is popped.
pub proof fn lemma_pop_of_bind(env: EnvModel, name: Seq<char>, v: ValModel)
    requires
        env.wf(),
        env.frames.len() > 0,
    ensures
        env.bind(name, v).pop_frame() == env.pop_frame(),
{
    let e1 = env.bind(name, v);
    if env.top().contains(name) {
        assert(frames_count(env.frames, name) > 0);
        let st = env.stack_of(name);
        assert(st.len() > 0);
        assert(st.update(st.len() - 1, v).drop_last() =~= st.drop_last());
        assert(e1.pop_frame().bindings =~= env.pop_frame().bindings);
        assert(e1.pop_frame() =~= env.pop_frame());
    } else {
        let t1 = env.top().insert(name);
        assert(e1.top() == t1);
        assert(e1.frames.drop_last() =~= env.frames.drop_last());
        if env.bindings.dom().contains(name) {
            assert(env.bindings[name].len() > 0);
            assert(env.bindings[name].push(v).drop_last() =~= env.bindings[name]);
        }
        assert forall|n: Seq<char>| true implies
            (e1.pop_frame().bindings.dom().contains(n)
                == env.pop_frame().bindings.dom().contains(n))
            && (env.pop_frame().bindings.dom().contains(n)
                ==> e1.pop_frame().bindings[n] == env.pop_frame().bindings[n]) by {
            if n == name {
                if env.bindings.dom().contains(name) {
                    assert(e1.bindings[name] == env.bindings[name].push(v));
                    assert(e1.bindings[name].len() > 1);
                } else {
                    assert(e1.bindings[name] == Seq::<ValModel>::empty().push(v));
                    assert(e1.bindings[name].len() == 1);
                }
            } else {
                assert(t1.contains(n) == env.top().contains(n));
                if env.bindings.dom().contains(n) {
                    assert(e1.bindings[n] == env.bindings[n]);
                }
            }
        }
        assert(e1.pop_frame().bindings =~= env.pop_frame().bindings);
        assert(e1.pop_frame() =~= env.pop_frame());
    }
}

/// A sequence of bindings applied in order.
pub open spec fn do_binds(env: EnvModel, ops: Seq<(Seq<char>, ValModel)>) -> EnvModel
    decreases ops.len(),
{
    if ops.len() == 0 {
        env
    } else {
        do_binds(env.bind(ops.first().0, ops.first().1), ops.drop_first())
    }
}

proof fn lemma_pop_of_do_binds(env: EnvModel, ops: Seq<(Seq<char>, ValModel)>)
    requires
        env.wf(),
        env.frames.len() > 0,
    ensures
        do_binds(env, ops).pop_frame() == env.pop_frame(),
    decreases ops.len(),
{
    if ops.len() > 0 {
        let e1 = env.bind(ops.first().0, ops.first().1);
        lemma_bind_preserves_wf(env, ops.first().0, ops.first().1);
        lemma_pop_of_do_binds(e1, ops.drop_first());
        lemma_pop_of_bind(env, ops.first().0, ops.first().1);
    }
}

/// Popping a frame undoes exactly the bindings made since the matching push:
/// whatever was bound in between, the environment returns to what it was.
pub proof fn lemma_pop_restores_snapshot(env: EnvModel, ops: Seq<(Seq<char>, ValModel)>)
    requires
        env.wf(),
    ensures
        do_binds(env.push_frame(), ops).pop_frame() == env,
{
    lemma_push_preserves_wf(env);
    lemma_pop_of_do_binds(env.push_frame(), ops);
    let p = env.push_frame();
    assert(p.top() =~= Set::<Seq<char>>::empty());
    assert(p.frames.drop_last() =~= env.frames);
    assert(p.pop_frame().bindings =~= env.bindings);
    assert(p.pop_frame() =~= env);
}

} // verus!
