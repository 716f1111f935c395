//! Dial-rotation password counting: a dial with positions 0..100 starts at
//! 50; each instruction turns it left or right and the password is how many
//! times the dial comes to rest on (or, in the click-wise variant, passes)
//! position 0.
use vstd::prelude::*;

verus! {

/// One rotation instruction: direction `'L'` or `'R'` and a click count.
pub struct Rotate {
    pub dir: char,
    pub amount: u32,
}

pub open spec fn valid_rotation(r: Rotate) -> bool {
    r.dir == 'L' || r.dir == 'R'
}

/// Euclidean remainder: the representative of `a` modulo `m` in `[0, m)`.
pub fn mod_pos(a: i64, m: i64) -> (r: i64)
    requires
        0 < m,
        a > i64::MIN,
    ensures
        r == a as int % m as int,
        0 <= r < m,
{
    if a >= 0 {
        a % m
    } else {
        let t = (-a) % m;
        proof {
            let ai = a as int;
            let mi = m as int;
            let q = (-ai) / mi;
            vstd::arithmetic::div_mod::lemma_fundamental_div_mod(-ai, mi);
            if t == 0 {
                assert(ai == (-q) * mi + 0) by (nonlinear_arith)
                    requires
                        -ai == mi * q + t,
                        t == 0,
                ;
                vstd::arithmetic::div_mod::lemma_fundamental_div_mod_converse(ai, mi, -q, 0);
            } else {
                assert(ai == (-q - 1) * mi + (mi - t)) by (nonlinear_arith)
                    requires
                        -ai == mi * q + t,
                ;
                vstd::arithmetic::div_mod::lemma_fundamental_div_mod_converse(
                    ai,
                    mi,
                    -q - 1,
                    mi - t,
                );
            }
        }
        if t == 0 {
            0
        } else {
            m - t
        }
    }
}

/// The dial position after one instruction, starting from `pos`.
pub open spec fn dial_step(pos: int, r: Rotate) -> int {
    if r.dir == 'L' {
        (pos - r.amount) % 100
    } else {
        (pos + r.amount) % 100
    }
}

/// How many instructions of `rs` leave the dial at position 0, starting
/// from `pos`.
pub open spec fn spec_password(rs: Seq<Rotate>, pos: int) -> int
    decreases rs.len(),
{
    if rs.len() == 0 {
        0
    } else {
        let p2 = dial_step(pos, rs[0]);
        (if p2 == 0 {
            1int
        } else {
            0int
        }) + spec_password(rs.drop_first(), p2)
    }
}

proof fn lemma_password_bound(rs: Seq<Rotate>, pos: int)
    ensures
        0 <= spec_password(rs, pos) <= rs.len(),
    decreases rs.len(),
{
    if rs.len() > 0 {
        lemma_password_bound(rs.drop_first(), dial_step(pos, rs[0]));
    }
}

/// Counts the instructions that leave the dial at 0, starting from 50.
pub fn get_password(rotations: &Vec<Rotate>) -> (password: i64)
    requires
        forall|i: int| 0 <= i < rotations@.len() ==> valid_rotation(#[trigger] rotations@[i]),
        rotations@.len() <= i64::MAX,
    ensures
        password == spec_password(rotations@, 50),
{
    let mut start_amount: i64 = 50;
    let mut password: i64 = 0;
    let mut i: usize = 0;
    proof {
        lemma_password_bound(rotations@, 50);
        assert(rotations@.skip(0) =~= rotations@);
    }
    while i < rotations.len()
        invariant
            i <= rotations@.len(),
            rotations@.len() <= i64::MAX,
            forall|t: int| 0 <= t < rotations@.len() ==> valid_rotation(#[trigger] rotations@[t]),
            0 <= start_amount < 100,
            0 <= password <= i,
            spec_password(rotations@, 50) == password + spec_password(
                rotations@.skip(i as int),
                start_amount as int,
            ),
        decreases rotations@.len() - i,
    {
        let ghost rest = rotations@.skip(i as int);
        proof {
            assert(rest[0] == rotations@[i as int]);
            assert(rest.drop_first() =~= rotations@.skip(i + 1));
            lemma_password_bound(rotations@.skip(i + 1), dial_step(start_amount as int, rest[0]));
        }
        let rot = &rotations[i];
        if rot.dir == 'L' {
            start_amount = mod_pos(start_amount - rot.amount as i64, 100);
        } else {
            start_amount = mod_pos(start_amount + rot.amount as i64, 100);
        }
        if start_amount == 0 {
            password = password + 1;
        }
        i = i + 1;
    }
    proof {
        assert(rotations@.skip(rotations@.len() as int) =~= Seq::<Rotate>::empty());
    }
    password
}

/// One left click and one right click of the dial.
pub open spec fn l_click(pos: int) -> int {
    if pos - 1 < 0 {
        99
    } else {
        pos - 1
    }
}

pub open spec fn r_click(pos: int) -> int {
    if pos + 1 > 99 {
        0
    } else {
        pos + 1
    }
}

/// Zero-crossings during `k` single clicks in direction `dir`.
pub open spec fn spec_clicks(pos: int, dir: char, k: nat) -> int
    decreases k,
{
    if k == 0 {
        0
    } else {
        let p2 = if dir == 'L' {
            l_click(pos)
        } else {
            r_click(pos)
        };
        (if p2 == 0 {
            1int
        } else {
            0int
        }) + spec_clicks(p2, dir, (k - 1) as nat)
    }
}

/// Dial position after `k` single clicks in direction `dir`.
pub open spec fn spec_clicks_pos(pos: int, dir: char, k: nat) -> int
    decreases k,
{
    if k == 0 {
        pos
    } else {
        let p2 = if dir == 'L' {
            l_click(pos)
        } else {
            r_click(pos)
        };
        spec_clicks_pos(p2, dir, (k - 1) as nat)
    }
}

/// Zero-crossings over a whole instruction list, click by click.
pub open spec fn spec_password_clicks(rs: Seq<Rotate>, pos: int) -> int
    decreases rs.len(),
{
    if rs.len() == 0 {
        0
    } else {
        spec_clicks(pos, rs[0].dir, rs[0].amount as nat) + spec_password_clicks(
            rs.drop_first(),
            spec_clicks_pos(pos, rs[0].dir, rs[0].amount as nat),
        )
    }
}

proof fn lemma_clicks_bound(pos: int, dir: char, k: nat)
    ensures
        0 <= spec_clicks(pos, dir, k) <= k,
    decreases k,
{
    if k > 0 {
        let p2 = if dir == 'L' {
            l_click(pos)
        } else {
            r_click(pos)
        };
        lemma_clicks_bound(p2, dir, (k - 1) as nat);
    }
}

/// Total number of clicks over a list of instructions.
pub open spec fn total_clicks(rs: Seq<Rotate>) -> int
    decreases rs.len(),
{
    if rs.len() == 0 {
        0
    } else {
        rs[0].amount + total_clicks(rs.drop_first())
    }
}

proof fn lemma_password_clicks_bound(rs: Seq<Rotate>, pos: int)
    ensures
        0 <= spec_password_clicks(rs, pos) <= total_clicks(rs),
    decreases rs.len(),
{
    if rs.len() > 0 {
        lemma_clicks_bound(pos, rs[0].dir, rs[0].amount as nat);
        lemma_password_clicks_bound(
            rs.drop_first(),
            spec_clicks_pos(pos, rs[0].dir, rs[0].amount as nat),
        );
    }
}

/// Counts every single click on which the dial reaches 0 (not only the
/// rest positions).
pub fn get_password_0x434C49434B(rotations: &Vec<Rotate>) -> (password: i64)
    requires
        forall|i: int| 0 <= i < rotations@.len() ==> valid_rotation(#[trigger] rotations@[i]),
        total_clicks(rotations@) <= i64::MAX,
    ensures
        password == spec_password_clicks(rotations@, 50),
{
    let mut start_amount: i64 = 50;
    let mut password: i64 = 0;
    let mut i: usize = 0;
    proof {
        lemma_password_clicks_bound(rotations@, 50);
        lemma_total_clicks_nonneg(rotations@);
        assert(rotations@.skip(0) =~= rotations@);
    }
    while i < rotations.len()
        invariant
            i <= rotations@.len(),
            forall|t: int| 0 <= t < rotations@.len() ==> valid_rotation(#[trigger] rotations@[t]),
            0 <= start_amount < 100,
            0 <= password,
            total_clicks(rotations@) <= i64::MAX,
            password + spec_password_clicks(rotations@.skip(i as int), start_amount as int)
                == spec_password_clicks(rotations@, 50),
            password + total_clicks(rotations@.skip(i as int)) <= total_clicks(rotations@),
        decreases rotations@.len() - i,
    {
        let ghost rest = rotations@.skip(i as int);
        proof {
            assert(rest[0] == rotations@[i as int]);
            assert(rest.drop_first() =~= rotations@.skip(i + 1));
            lemma_total_clicks_nonneg(rotations@.skip(i + 1));
        }
        let rot = &rotations[i];
        let mut clicks: i64 = rot.amount as i64;
        let dir = rot.dir;
        proof {
            lemma_clicks_bound(start_amount as int, dir, rot.amount as nat);
            lemma_password_clicks_bound(
                rotations@.skip(i + 1),
                spec_clicks_pos(start_amount as int, dir, rot.amount as nat),
            );
        }
        let ghost pw0 = password as int;
        let ghost pos0 = start_amount as int;
        let ghost k0 = rot.amount as nat;
        while clicks > 0
            invariant
                0 <= clicks <= k0,
                0 <= start_amount < 100,
                dir == 'L' || dir == 'R',
                pw0 + spec_clicks(pos0, dir, k0) <= i64::MAX,
                pw0 <= password,
                password + spec_clicks(start_amount as int, dir, clicks as nat) == pw0
                    + spec_clicks(pos0, dir, k0),
                spec_clicks_pos(start_amount as int, dir, clicks as nat) == spec_clicks_pos(
                    pos0,
                    dir,
                    k0,
                ),
            decreases clicks,
        {
            proof {
                lemma_clicks_bound(start_amount as int, dir, clicks as nat);
                let p2 = if dir == 'L' {
                    l_click(start_amount as int)
                } else {
                    r_click(start_amount as int)
                };
                lemma_clicks_bound(p2, dir, (clicks - 1) as nat);
            }
            if dir == 'L' {
                start_amount = start_amount - 1;
                if start_amount < 0 {
                    start_amount = 99;
                }
            } else {
                start_amount = start_amount + 1;
                if start_amount > 99 {
                    start_amount = 0;
                }
            }
            if start_amount == 0 {
                password = password + 1;
            }
            clicks = clicks - 1;
        }
        i = i + 1;
    }
    proof {
        assert(rotations@.skip(rotations@.len() as int) =~= Seq::<Rotate>::empty());
    }
    password
}

proof fn lemma_total_clicks_nonneg(rs: Seq<Rotate>)
    ensures
        total_clicks(rs) >= 0,
    decreases rs.len(),
{
    if rs.len() > 0 {
        lemma_total_clicks_nonneg(rs.drop_first());
    }
}

} // verus!
