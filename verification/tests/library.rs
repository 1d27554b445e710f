//! Scenario tests from the documentation, edge cases, exact values of the
//! structural counts, and concrete instances of the library's laws.

use seaflowbdd::{
    dedupe_first_seen, is_identity, is_identity_return_map, Bdd, Manager, AND_OP, IFF_OP,
    IMPLIES_OP, NAND_OP, NOR_OP, OR_OP, XOR_OP,
};

fn assignment(v: u64, n: usize) -> Vec<bool> {
    (0..n).map(|i| (v >> i) & 1 == 1).collect()
}

fn truth_table(m: &Manager, f: Bdd) -> Vec<bool> {
    let n = m.total_vars() as usize;
    (0..(1u64 << n)).map(|v| m.evaluate(f, &assignment(v, n))).collect()
}

#[test]
fn quick_start_scenario() {
    let mut m = Manager::new(2);
    let x0 = m.mk_proj(0);
    let x1 = m.mk_proj(1);
    let f = m.and(x0, x1);
    assert!(m.evaluate(f, &[true, true, false, false]));
    assert!(!m.evaluate(f, &[false, true, true, true]));
    assert!(!m.evaluate(f, &[true, false, false, false]));
    assert_eq!(m.path_count(f), 4);
    let f_again = {
        let a = m.mk_proj(0);
        let b = m.mk_proj(1);
        m.and(a, b)
    };
    assert_eq!(f, f_again);
    assert!(m.eq(f, f_again));
}

#[test]
fn restrict_raises_count_scenario() {
    let mut m = Manager::new(2);
    let x0 = m.mk_proj(0);
    let x1 = m.mk_proj(1);
    let f = m.and(x0, x1);
    let g = m.restrict(f, 0, true);
    assert_eq!(m.path_count(g), 8);
}

#[test]
fn majority_of_five_scenario() {
    let mut m = Manager::new(3);
    let mut f = m.mk_false();
    for mask in 0..(1u32 << 5) {
        if mask.count_ones() < 3 {
            continue;
        }
        let mut cube = m.mk_true();
        for i in 0..5 {
            if (mask >> i) & 1 == 1 {
                let xi = m.mk_proj(i);
                cube = m.and(cube, xi);
            }
        }
        f = m.or(f, cube);
    }
    // (C(5,3) + C(5,4) + C(5,5)) * 2^3 = 16 * 8
    assert_eq!(m.path_count(f), 128);
    let f0 = m.restrict(f, 0, true);
    // With x_0 set, at least 2 of the other 4: (6 + 4 + 1) * 2^4
    assert_eq!(m.path_count(f0), 176);
}

#[test]
fn manager_basics() {
    let m = Manager::new(1);
    assert_eq!(m.level(), 1);
    assert_eq!(m.total_vars(), 2);
    assert_eq!(m.node_count(), 2);
    // [0], [1] and [0, 1] are interned at construction.
    assert_eq!(m.return_map_count(), 3);
    let big = Manager::new(30);
    assert_eq!(big.level(), 30);
    assert_eq!(big.total_vars(), 1u32 << 30);
}

#[test]
fn level_one_projections_evaluate() {
    let mut m = Manager::new(1);
    let x0 = m.mk_proj(0);
    let x1 = m.mk_proj(1);
    assert_eq!(truth_table(&m, x0), vec![false, true, false, true]);
    assert_eq!(truth_table(&m, x1), vec![false, false, true, true]);
    let t = m.mk_true();
    let f = m.mk_false();
    assert_eq!(truth_table(&m, t), vec![true; 4]);
    assert_eq!(truth_table(&m, f), vec![false; 4]);
}

#[test]
fn every_named_op_matches_its_table() {
    let mut m = Manager::new(2);
    let a = m.mk_proj(1);
    let b = m.mk_proj(2);
    let ops: Vec<(&str, [[u32; 2]; 2], fn(bool, bool) -> bool)> = vec![
        ("and", AND_OP, |x, y| x && y),
        ("or", OR_OP, |x, y| x || y),
        ("xor", XOR_OP, |x, y| x != y),
        ("iff", IFF_OP, |x, y| x == y),
        ("implies", IMPLIES_OP, |x, y| !x || y),
        ("nand", NAND_OP, |x, y| !(x && y)),
        ("nor", NOR_OP, |x, y| !(x || y)),
    ];
    for (name, op, f) in ops {
        let r = m.apply(a, b, op);
        for v in 0..16u64 {
            let asn = assignment(v, 4);
            assert_eq!(m.evaluate(r, &asn), f(asn[1], asn[2]), "{} at {:?}", name, asn);
        }
    }
    let named = [
        m.and(a, b),
        m.or(a, b),
        m.xor(a, b),
        m.iff(a, b),
        m.implies(a, b),
        m.nand(a, b),
        m.nor(a, b),
    ];
    let by_table = [
        m.apply(a, b, AND_OP),
        m.apply(a, b, OR_OP),
        m.apply(a, b, XOR_OP),
        m.apply(a, b, IFF_OP),
        m.apply(a, b, IMPLIES_OP),
        m.apply(a, b, NAND_OP),
        m.apply(a, b, NOR_OP),
    ];
    assert_eq!(named, by_table);
}

#[test]
fn structural_counts_of_constants() {
    for level in 1..=6u8 {
        let mut m = Manager::new(level);
        let t = m.mk_true();
        let f = m.mk_false();
        // The no-distinction chain from the top level down to the leaf.
        assert_eq!(m.reachable_node_count(t), level as usize + 1);
        assert_eq!(m.reachable_edge_count(t), 2 * level as usize);
        assert_eq!(m.reachable_node_count(f), level as usize + 1);
        assert_eq!(m.reachable_edge_count(f), 2 * level as usize);
    }
}

#[test]
fn structural_counts_of_a_projection() {
    let mut m = Manager::new(1);
    let x0 = m.mk_proj(0);
    // The level-1 node, the fork leaf and the don't-care leaf.
    assert_eq!(m.reachable_node_count(x0), 3);
    // One A-connection and two B-connections.
    assert_eq!(m.reachable_edge_count(x0), 3);
    let x1 = m.mk_proj(1);
    assert_eq!(m.reachable_node_count(x1), 3);
    // One A-connection and one B-connection.
    assert_eq!(m.reachable_edge_count(x1), 2);
}

#[test]
fn bdd_keeps_meaning_as_manager_grows() {
    let mut m = Manager::new(2);
    let x0 = m.mk_proj(0);
    let x3 = m.mk_proj(3);
    let f = m.xor(x0, x3);
    let before = truth_table(&m, f);
    let count_before = m.path_count(f);
    for i in 0..4 {
        let xi = m.mk_proj(i);
        let g = m.and(f, xi);
        let _ = m.restrict(g, (i + 1) % 4, true);
        let _ = m.compose(g, i, f);
    }
    assert!(m.node_count() > 2);
    assert_eq!(truth_table(&m, f), before);
    assert_eq!(m.path_count(f), count_before);
}

#[test]
fn count_depends_only_on_the_function() {
    let mut m = Manager::new(2);
    let x1 = m.mk_proj(1);
    let n1 = m.not(x1);
    let nn1 = m.not(n1);
    assert_eq!(truth_table(&m, nn1), truth_table(&m, x1));
    assert_eq!(m.path_count(nn1), m.path_count(x1));
}

#[test]
fn count_of_function_and_negation_covers_all() {
    for level in 1..=4u8 {
        let mut m = Manager::new(level);
        let n = m.total_vars();
        let a = m.mk_proj(0);
        let b = m.mk_proj(n - 1);
        let f = m.implies(a, b);
        let g = m.not(f);
        assert_eq!(m.path_count(f) + m.path_count(g), 1i128 << n);
    }
}

#[test]
fn count_of_constants_at_each_level() {
    for level in 1..=6u8 {
        let mut m = Manager::new(level);
        let t = m.mk_true();
        let f = m.mk_false();
        assert_eq!(m.path_count(t), 1i128 << (1u32 << level));
        assert_eq!(m.path_count(f), 0);
    }
}

#[test]
fn count_of_each_projection_is_half() {
    for level in 1..=4u8 {
        let mut m = Manager::new(level);
        let n = m.total_vars();
        for i in 0..n {
            let p = m.mk_proj(i);
            assert_eq!(m.path_count(p) * 2, 1i128 << n);
        }
    }
}

#[test]
fn hash_consing_shares_structure() {
    let mut m = Manager::new(3);
    let build = |m: &mut Manager| {
        let a = m.mk_proj(2);
        let b = m.mk_proj(5);
        let c = m.mk_proj(6);
        let ab = m.and(a, b);
        m.or(ab, c)
    };
    let f = build(&mut m);
    let nodes = m.node_count();
    let maps = m.return_map_count();
    let g = build(&mut m);
    assert_eq!(f, g);
    assert_eq!(m.node_count(), nodes);
    assert_eq!(m.return_map_count(), maps);
}

#[test]
fn quantifier_and_compose_identities_evaluate() {
    let mut m = Manager::new(2);
    let x0 = m.mk_proj(0);
    let x2 = m.mk_proj(2);
    let f = m.or(x0, x2);
    let g = m.and(x0, x2);
    let n = m.total_vars() as usize;
    for i in 0..4u32 {
        let c = m.compose(f, i, g);
        let e = m.exists_var(f, i);
        let a = m.forall_var(f, i);
        for v in 0..16u64 {
            let asn = assignment(v, n);
            let mut at = asn.clone();
            at[i as usize] = true;
            let mut af = asn.clone();
            af[i as usize] = false;
            let mut ag = asn.clone();
            ag[i as usize] = m.evaluate(g, &asn);
            assert_eq!(m.evaluate(c, &asn), m.evaluate(f, &ag));
            assert_eq!(m.evaluate(e, &asn), m.evaluate(f, &at) || m.evaluate(f, &af));
            assert_eq!(m.evaluate(a, &asn), m.evaluate(f, &at) && m.evaluate(f, &af));
        }
    }
}

#[test]
fn dedupe_first_seen_numbers_in_order() {
    let (body, red) = dedupe_first_seen(&[5, 3, 5, 7, 3]);
    assert_eq!(body, vec![5, 3, 7]);
    assert_eq!(red, vec![0, 1, 0, 2, 1]);
    let (body, red) = dedupe_first_seen(&[]);
    assert!(body.is_empty());
    assert!(red.is_empty());
    let (body, red) = dedupe_first_seen(&[0, 1, 1, 2]);
    assert_eq!(body, vec![0, 1, 2]);
    assert_eq!(red, vec![0, 1, 1, 2]);
}

#[test]
fn identity_checks() {
    assert!(is_identity(&[]));
    assert!(is_identity(&[0, 1, 2]));
    assert!(!is_identity(&[0, 2, 1]));
    assert!(!is_identity(&[1]));
    assert!(is_identity_return_map(&[0, 1]));
    assert!(!is_identity_return_map(&[0, 0]));
}

#[test]
fn de_morgan_holds_canonically() {
    let mut m = Manager::new(3);
    for i in 0..4 {
        for j in 0..4 {
            let a = m.mk_proj(i);
            let b = m.mk_proj(j);
            let ab = m.and(a, b);
            let lhs = m.not(ab);
            let na = m.not(a);
            let nb = m.not(b);
            let rhs = m.or(na, nb);
            assert_eq!(lhs, rhs);
            assert!(m.eq(lhs, rhs));
        }
    }
}

#[test]
fn double_negation_gives_back_the_bdd() {
    let mut m = Manager::new(2);
    let x0 = m.mk_proj(0);
    let x3 = m.mk_proj(3);
    let f = m.xor(x0, x3);
    let nf = m.not(f);
    let nnf = m.not(nf);
    assert_eq!(nnf, f);
    assert_ne!(nf, f);
}

#[test]
fn same_function_built_differently_is_the_same_bdd() {
    let mut m = Manager::new(2);
    let x0 = m.mk_proj(0);
    let x1 = m.mk_proj(1);
    // x0 XOR x1 three ways.
    let a = m.xor(x0, x1);
    let n0 = m.not(x0);
    let n1 = m.not(x1);
    let l = m.and(x0, n1);
    let r = m.and(n0, x1);
    let b = m.or(l, r);
    let iff = m.iff(x0, x1);
    let c = m.not(iff);
    assert_eq!(a, b);
    assert_eq!(a, c);
    // x0 AND x0 is x0; x0 AND NOT x0 is false; x0 OR NOT x0 is true.
    let aa = m.and(x0, x0);
    assert_eq!(aa, x0);
    let t = m.mk_true();
    let f = m.mk_false();
    let contra = m.and(x0, n0);
    let taut = m.or(x0, n0);
    assert_eq!(contra, f);
    assert_eq!(taut, t);
    assert!(!m.eq(a, iff));
}

#[test]
fn algebraic_identities_hold_canonically() {
    let mut m = Manager::new(2);
    let t = m.mk_true();
    let fls = m.mk_false();
    let x0 = m.mk_proj(0);
    let x1 = m.mk_proj(1);
    let x2 = m.mk_proj(2);
    let a = m.and(x0, x1);
    let f = m.xor(a, x2);
    let g = m.or(x1, x2);
    let h = m.not(x0);
    // idempotence
    let ff = m.and(f, f);
    assert_eq!(ff, f);
    let ff = m.or(f, f);
    assert_eq!(ff, f);
    // f XOR f is false
    let z = m.xor(f, f);
    assert_eq!(z, fls);
    // units and zeros
    let r = m.and(f, t);
    assert_eq!(r, f);
    let r = m.or(f, fls);
    assert_eq!(r, f);
    let r = m.and(f, fls);
    assert_eq!(r, fls);
    let r = m.or(f, t);
    assert_eq!(r, t);
    // commutativity
    let l = m.and(f, g);
    let r = m.and(g, f);
    assert_eq!(l, r);
    let l = m.or(f, g);
    let r = m.or(g, f);
    assert_eq!(l, r);
    let l = m.xor(f, g);
    let r = m.xor(g, f);
    assert_eq!(l, r);
    // associativity of AND
    let fg = m.and(f, g);
    let l = m.and(fg, h);
    let gh = m.and(g, h);
    let r = m.and(f, gh);
    assert_eq!(l, r);
    // distributivity
    let goh = m.or(g, h);
    let l = m.and(f, goh);
    let fg = m.and(f, g);
    let fh = m.and(f, h);
    let r = m.or(fg, fh);
    assert_eq!(l, r);
}

#[test]
fn constants_and_projections_intern_no_return_map() {
    for level in 1..=6u8 {
        let mut m = Manager::new(level);
        assert_eq!(m.return_map_count(), 3);
        let t = m.mk_true();
        let f = m.mk_false();
        assert_eq!(m.return_map_count(), 3);
        let n = m.total_vars();
        for i in [0, n / 2, n - 1] {
            let p = m.mk_proj(i);
            assert!(m.reachable_node_count(p) >= level as usize + 1);
        }
        assert_eq!(m.return_map_count(), 3);
        assert!(m.reachable_node_count(t) >= level as usize + 1);
        assert!(m.reachable_node_count(f) >= level as usize + 1);
    }
}

#[test]
fn negation_reaches_the_same_nodes() {
    let mut m = Manager::new(2);
    let x0 = m.mk_proj(0);
    let x3 = m.mk_proj(3);
    let f = m.xor(x0, x3);
    let nf = m.not(f);
    assert_eq!(m.reachable_node_count(nf), m.reachable_node_count(f));
    assert_eq!(m.reachable_edge_count(nf), m.reachable_edge_count(f));
    let before = m.reachable_node_count(f);
    let _g = m.and(x0, x3);
    assert_eq!(m.reachable_node_count(f), before);
}
