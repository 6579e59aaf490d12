//! Chat hub: a room of named users; joins, leaves and chat lines
//! are broadcast to everyone else.

use vstd::prelude::*;

verus! {

/// A name byte the room accepts: an ASCII letter or digit.
pub open spec fn is_alnum(b: u8) -> bool {
    (48 <= b <= 57) || (65 <= b <= 90) || (97 <= b <= 122)
}

/// An acceptable user name: nonempty, letters and digits only.
pub open spec fn name_valid(s: Seq<u8>) -> bool {
    s.len() >= 1 && forall|k: int| 0 <= k < s.len() ==> is_alnum(#[trigger] s[k])
}

/// Check a proposed user name.
pub fn is_valid(name: &[u8]) -> (r: bool)
    ensures
        r == name_valid(name@),
{
    if name.len() == 0 {
        return false;
    }
    let mut i: usize = 0;
    while i < name.len()
        invariant
            0 <= i <= name@.len(),
            name@.len() >= 1,
            forall|k: int| 0 <= k < i ==> is_alnum(#[trigger] name@[k]),
        decreases name@.len() - i,
    {
        let b = name[i];
        if !((b >= 48 && b <= 57) || (b >= 65 && b <= 90) || (b >= 97 && b <= 122)) {
            return false;
        }
        i = i + 1;
    }
    true
}

/// The room: who is present.  The writer handles stay outside the
/// library; the room tracks the names.
pub struct Room {
    pub users: Vec<Vec<u8>>,
}

/// Names are unique and acceptable.
pub open spec fn room_wf(us: Seq<Seq<u8>>) -> bool {
    &&& forall|a: int, b: int| 0 <= a < b < us.len() ==> us[a] != us[b]
    &&& forall|k: int| 0 <= k < us.len() ==> name_valid(#[trigger] us[k])
}

impl Room {
    pub fn new() -> (r: Room)
        ensures
            r.users.deep_view() == Seq::<Seq<u8>>::empty(),
            room_wf(r.users.deep_view()),
    {
        let r = Room { users: Vec::new() };
        proof {
            assert(r.users.deep_view() =~~= Seq::<Seq<u8>>::empty());
        }
        r
    }

    /// Whether `name` is in the room.
    pub fn has_user(&self, name: &[u8]) -> (r: bool)
        ensures
            r == self.users.deep_view().contains(name@),
    {
        let ghost dv = self.users.deep_view();
        let mut i: usize = 0;
        while i < self.users.len()
            invariant
                0 <= i <= self.users@.len(),
                dv == self.users.deep_view(),
                dv.len() == self.users@.len(),
                forall|k: int| 0 <= k < i ==> dv[k] != name@,
            decreases self.users@.len() - i,
        {
            proof {
                assert(dv[i as int] =~= self.users@[i as int]@);
            }
            if crate::util::bytes_eq(self.users[i].as_slice(), name) {
                return true;
            }
            i = i + 1;
        }
        proof {
            if dv.contains(name@) {
                let k = choose|k: int| 0 <= k < dv.len() && dv[k] == name@;
                assert(false);
            }
        }
        false
    }

    /// Let a newcomer in.  Refused when the name is unacceptable or
    /// taken; then nothing changes.
    pub fn add_user(&mut self, name: Vec<u8>) -> (r: bool)
        requires
            room_wf(old(self).users.deep_view()),
        ensures
            room_wf(final (self).users.deep_view()),
            r == (name_valid(name@) && !old(self).users.deep_view().contains(name@)),
            final (self).users.deep_view() == if r {
                old(self).users.deep_view().push(name@)
            } else {
                old(self).users.deep_view()
            },
    {
        if !is_valid(name.as_slice()) {
            return false;
        }
        if self.has_user(name.as_slice()) {
            return false;
        }
        let ghost prev = self.users.deep_view();
        let ghost nv = name@;
        self.users.push(name);
        proof {
            assert(self.users.deep_view() =~~= prev.push(nv));
            assert forall|a: int, b: int|
                0 <= a < b < self.users.deep_view().len() implies self.users.deep_view()[a]
                != self.users.deep_view()[b] by {
                if b < prev.len() {
                    assert(self.users.deep_view()[a] == prev[a] && self.users.deep_view()[b]
                        == prev[b]);
                } else {
                    assert(self.users.deep_view()[a] == prev[a]);
                    if prev[a] == nv {
                        assert(prev.contains(nv));
                    }
                }
            }
        }
        true
    }

    /// See a user out: no entry under the name stays; every other
    /// name stays put.
    pub fn remove_user(&mut self, name: &[u8])
        requires
            room_wf(old(self).users.deep_view()),
        ensures
            room_wf(final (self).users.deep_view()),
            !final (self).users.deep_view().contains(name@),
            forall|n: Seq<u8>|
                n != name@ ==> (final (self).users.deep_view().contains(n) <==> old(
                    self,
                ).users.deep_view().contains(n)),
    {
        let ghost dv = old(self).users.deep_view();
        let mut kept: Vec<Vec<u8>> = Vec::new();
        let mut i: usize = 0;
        proof {
            assert(kept.deep_view() =~~= Seq::<Seq<u8>>::empty());
            assert(dv.take(0) =~= Seq::<Seq<u8>>::empty());
        }
        while i < self.users.len()
            invariant
                0 <= i <= self.users@.len(),
                *self == *old(self),
                dv == self.users.deep_view(),
                dv.len() == self.users@.len(),
                room_wf(dv),
                !kept.deep_view().contains(name@),
                forall|n: Seq<u8>|
                    n != name@ ==> (kept.deep_view().contains(n) <==> dv.take(i as int).contains(
                        n,
                    )),
                forall|a: int, b: int|
                    0 <= a < b < kept.deep_view().len() ==> kept.deep_view()[a]
                        != kept.deep_view()[b],
                forall|k: int|
                    0 <= k < kept.deep_view().len() ==> name_valid(#[trigger] kept.deep_view()[k]),
            decreases self.users@.len() - i,
        {
            proof {
                assert(dv[i as int] =~= self.users@[i as int]@);
            }
            if !crate::util::bytes_eq(self.users[i].as_slice(), name) {
                let ghost prev = kept.deep_view();
                let u = self.users[i].clone();
                proof {
                    assert(u@ =~= dv[i as int]);
                }
                kept.push(u);
                proof {
                    assert(kept.deep_view() =~~= prev.push(dv[i as int]));
                    assert forall|n: Seq<u8>|
                        n != name@ implies (kept.deep_view().contains(n) <==> dv.take(
                        i + 1,
                    ).contains(n)) by {
                        if prev.contains(n) {
                            let k = choose|k: int| 0 <= k < prev.len() && prev[k] == n;
                            assert(kept.deep_view()[k] == n);
                        }
                        if kept.deep_view().contains(n) {
                            let k = choose|k: int|
                                0 <= k < kept.deep_view().len() && kept.deep_view()[k] == n;
                            if k < prev.len() {
                                assert(prev[k] == n);
                                assert(dv.take(i as int).contains(n));
                                let k2 = choose|k2: int|
                                    0 <= k2 < i && dv.take(i as int)[k2] == n;
                                assert(dv.take(i + 1)[k2] == n);
                            } else {
                                assert(dv.take(i + 1)[i as int] == n);
                            }
                        }
                        if dv.take(i + 1).contains(n) {
                            let k = choose|k: int|
                                0 <= k < i + 1 && #[trigger] dv.take(i + 1)[k] == n;
                            if k < i {
                                assert(dv.take(i as int)[k] == n);
                                assert(kept.deep_view().contains(n)) by {
                                    let k3 = choose|k3: int|
                                        0 <= k3 < prev.len() && prev[k3] == n;
                                    assert(kept.deep_view()[k3] == n);
                                }
                            } else {
                                assert(kept.deep_view()[prev.len() as int] == n);
                            }
                        }
                    }
                    assert forall|a: int, b: int|
                        0 <= a < b < kept.deep_view().len() implies kept.deep_view()[a]
                        != kept.deep_view()[b] by {
                        if b == prev.len() {
                            assert(kept.deep_view()[b] == dv[i as int]);
                            assert(kept.deep_view()[a] == prev[a]);
                            if prev[a] == dv[i as int] {
                                assert(prev.contains(dv[i as int]));
                                assert(dv.take(i as int).contains(dv[i as int]));
                                let k2 = choose|k2: int|
                                    0 <= k2 < i && dv.take(i as int)[k2] == dv[i as int];
                                assert(dv[k2] == dv[i as int]);
                                assert(false);
                            }
                        } else {
                            assert(kept.deep_view()[a] == prev[a] && kept.deep_view()[b]
                                == prev[b]);
                        }
                    }
                }
            } else {
                proof {
                    assert forall|n: Seq<u8>|
                        n != name@ implies (kept.deep_view().contains(n) <==> dv.take(
                        i + 1,
                    ).contains(n)) by {
                        if dv.take(i + 1).contains(n) {
                            let k = choose|k: int|
                                0 <= k < i + 1 && #[trigger] dv.take(i + 1)[k] == n;
                            assert(k < i);
                            assert(dv.take(i as int)[k] == n);
                        }
                        if dv.take(i as int).contains(n) {
                            let k = choose|k: int|
                                0 <= k < i && #[trigger] dv.take(i as int)[k] == n;
                            assert(dv.take(i + 1)[k] == n);
                        }
                    }
                }
            }
            i = i + 1;
        }
        proof {
            assert(dv.take(dv.len() as int) =~= dv);
        }
        self.users = kept;
    }
}

/// `* The room contains a, b` and a newline.
pub open spec fn contains_wire(names: Seq<Seq<u8>>) -> Seq<u8> {
    seq![42u8, 32u8, 84u8, 104u8, 101u8, 32u8, 114u8, 111u8, 111u8, 109u8, 32u8, 99u8, 111u8, 110u8, 116u8, 97u8, 105u8, 110u8, 115u8, 32u8] + joined(names) + seq![10u8]
}

/// The names, separated by a comma and a space.
pub open spec fn joined(names: Seq<Seq<u8>>) -> Seq<u8>
    decreases names.len(),
{
    if names.len() == 0 {
        Seq::empty()
    } else if names.len() == 1 {
        names[0]
    } else {
        joined(names.drop_last()) + seq![44u8, 32u8] + names.last()
    }
}

/// `* <name> has entered the room` and a newline.
pub open spec fn entered_wire(name: Seq<u8>) -> Seq<u8> {
    seq![42u8, 32u8] + name + seq![32u8, 104u8, 97u8, 115u8, 32u8, 101u8, 110u8, 116u8, 101u8, 114u8, 101u8, 100u8, 32u8, 116u8, 104u8, 101u8, 32u8, 114u8, 111u8, 111u8, 109u8, 10u8]
}

/// `* <name> has left the room` and a newline.
pub open spec fn left_wire(name: Seq<u8>) -> Seq<u8> {
    seq![42u8, 32u8] + name + seq![32u8, 104u8, 97u8, 115u8, 32u8, 108u8, 101u8, 102u8, 116u8, 32u8, 116u8, 104u8, 101u8, 32u8, 114u8, 111u8, 111u8, 109u8, 10u8]
}

/// `[<name>] <msg>` and a newline.
pub open spec fn chat_wire(name: Seq<u8>, msg: Seq<u8>) -> Seq<u8> {
    seq![91u8] + name + seq![93u8, 32u8] + msg + seq![10u8]
}

/// The greeting sent to every new connection.
pub open spec fn welcome_wire() -> Seq<u8> {
    seq![87u8, 101u8, 108u8, 99u8, 111u8, 109u8, 101u8, 32u8, 116u8, 111u8, 32u8, 98u8, 117u8, 100u8, 103u8, 101u8, 116u8, 99u8, 104u8, 97u8, 116u8, 33u8, 32u8, 87u8, 104u8, 97u8, 116u8, 32u8, 115u8, 104u8, 97u8, 108u8, 108u8, 32u8, 73u8, 32u8, 99u8, 97u8, 108u8, 108u8, 32u8, 121u8, 111u8, 117u8, 63u8, 10u8]
}

/// Write the greeting.
pub fn welcome_msg() -> (r: Vec<u8>)
    ensures
        r@ == welcome_wire(),
{
    let out: Vec<u8> = vec![87u8, 101u8, 108u8, 99u8, 111u8, 109u8, 101u8, 32u8, 116u8, 111u8, 32u8, 98u8, 117u8, 100u8, 103u8, 101u8, 116u8, 99u8, 104u8, 97u8, 116u8, 33u8, 32u8, 87u8, 104u8, 97u8, 116u8, 32u8, 115u8, 104u8, 97u8, 108u8, 108u8, 32u8, 73u8, 32u8, 99u8, 97u8, 108u8, 108u8, 32u8, 121u8, 111u8, 117u8, 63u8, 10u8];
    proof {
        assert(out@ =~= welcome_wire());
    }
    out
}

/// Write the room listing a newcomer sees: everyone already present.
pub fn room_contains_msg(names: &Vec<Vec<u8>>) -> (r: Vec<u8>)
    ensures
        r@ == contains_wire(names.deep_view()),
{
    let ghost dv = names.deep_view();
    let mut out: Vec<u8> = vec![42u8, 32u8, 84u8, 104u8, 101u8, 32u8, 114u8, 111u8, 111u8, 109u8, 32u8, 99u8, 111u8, 110u8, 116u8, 97u8, 105u8, 110u8, 115u8, 32u8];
    let mut i: usize = 0;
    proof {
        assert(joined(dv.take(0)) =~= Seq::<u8>::empty());
        assert(out@ =~= seq![42u8, 32u8, 84u8, 104u8, 101u8, 32u8, 114u8, 111u8, 111u8, 109u8, 32u8, 99u8, 111u8, 110u8, 116u8, 97u8, 105u8, 110u8, 115u8, 32u8] + joined(dv.take(0)));
    }
    while i < names.len()
        invariant
            0 <= i <= names@.len(),
            dv == names.deep_view(),
            dv.len() == names@.len(),
            out@ =~= seq![42u8, 32u8, 84u8, 104u8, 101u8, 32u8, 114u8, 111u8, 111u8, 109u8, 32u8, 99u8, 111u8, 110u8, 116u8, 97u8, 105u8, 110u8, 115u8, 32u8] + joined(dv.take(i as int)),
        decreases names@.len() - i,
    {
        proof {
            assert(dv[i as int] =~= names@[i as int]@);
            assert(dv.take(i + 1).drop_last() =~= dv.take(i as int));
            assert(dv.take(i + 1).last() == dv[i as int]);
        }
        if i > 0 {
            out.push(44);
            out.push(32);
        }
        let ghost base = out@;
        let nm = &names[i];
        let mut k: usize = 0;
        while k < nm.len()
            invariant
                i < names@.len(),
                0 <= k <= nm@.len(),
                nm@ == names@[i as int]@,
                out@ =~= base + nm@.take(k as int),
            decreases nm@.len() - k,
        {
            out.push(nm[k]);
            proof {
                assert(nm@.take(k + 1) =~= nm@.take(k as int).push(nm@[k as int]));
                assert(out@ =~= base + nm@.take(k + 1));
            }
            k = k + 1;
        }
        proof {
            assert(nm@.take(nm@.len() as int) =~= nm@);
            if i == 0 {
                assert(joined(dv.take(1)) == dv.take(1)[0]);
                assert(dv.take(1)[0] == dv[0]);
                assert(out@ =~= seq![42u8, 32u8, 84u8, 104u8, 101u8, 32u8, 114u8, 111u8, 111u8, 109u8, 32u8, 99u8, 111u8, 110u8, 116u8, 97u8, 105u8, 110u8, 115u8, 32u8] + joined(dv.take(i + 1)));
            } else {
                assert(out@ =~= seq![42u8, 32u8, 84u8, 104u8, 101u8, 32u8, 114u8, 111u8, 111u8, 109u8, 32u8, 99u8, 111u8, 110u8, 116u8, 97u8, 105u8, 110u8, 115u8, 32u8] + joined(dv.take(i + 1)));
            }
        }
        i = i + 1;
    }
    proof {
        assert(dv.take(dv.len() as int) =~= dv);
    }
    out.push(10);
    proof {
        assert(out@ =~= contains_wire(dv));
    }
    out
}

/// Write the join notice.
pub fn entered_msg(name: &[u8]) -> (r: Vec<u8>)
    ensures
        r@ == entered_wire(name@),
{
    let mut out: Vec<u8> = vec![42u8, 32u8];
    out.extend_from_slice(name);
    let mut closing: Vec<u8> = vec![32u8, 104u8, 97u8, 115u8, 32u8, 101u8, 110u8, 116u8, 101u8, 114u8, 101u8, 100u8, 32u8, 116u8, 104u8, 101u8, 32u8, 114u8, 111u8, 111u8, 109u8, 10u8];
    out.append(&mut closing);
    proof {
        assert(out@ =~= entered_wire(name@));
    }
    out
}

/// Write the leave notice.
pub fn left_msg(name: &[u8]) -> (r: Vec<u8>)
    ensures
        r@ == left_wire(name@),
{
    let mut out: Vec<u8> = vec![42u8, 32u8];
    out.extend_from_slice(name);
    let mut closing: Vec<u8> = vec![32u8, 104u8, 97u8, 115u8, 32u8, 108u8, 101u8, 102u8, 116u8, 32u8, 116u8, 104u8, 101u8, 32u8, 114u8, 111u8, 111u8, 109u8, 10u8];
    out.append(&mut closing);
    proof {
        assert(out@ =~= left_wire(name@));
    }
    out
}

/// Write one chat line as the others see it.
pub fn chat_msg(name: &[u8], msg: &[u8]) -> (r: Vec<u8>)
    ensures
        r@ == chat_wire(name@, msg@),
{
    let mut out: Vec<u8> = Vec::new();
    out.push(91);
    out.extend_from_slice(name);
    out.push(93);
    out.push(32);
    out.extend_from_slice(msg);
    out.push(10);
    proof {
        assert(out@ =~= chat_wire(name@, msg@));
    }
    out
}

} // verus!
