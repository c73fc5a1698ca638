use ribbon_genus::connect::check_connected;
use ribbon_genus::enumerate::{genus_histogram, nest, nest2};
use ribbon_genus::genus::{count, GenusError};
use ribbon_genus::perm::{face_count, product_permute, PermutationStructure};
use ribbon_genus::rotation::{convert_vertex_map, is_in_array, ConfigError, RotationSystem};

fn system(arrows: usize, vertices: &[&[usize]]) -> RotationSystem {
    RotationSystem { arrows, vertices: vertices.iter().map(|v| v.to_vec()).collect() }
}

fn perm(out: &[usize]) -> PermutationStructure {
    PermutationStructure { out: out.to_vec() }
}

#[test]
fn two_vertices_of_four_arrows() {
    let config = system(8, &[&[0, 1, 2, 3], &[4, 5, 6, 7]]);
    let h = genus_histogram(&config, 6).unwrap();
    assert_eq!(h, vec![36, 60, 0, 0, 0, 0]);
    // 105 pairings in all, of which 9 leave the two vertices apart
    assert_eq!(h.iter().sum::<usize>(), 96);
}

#[test]
fn single_edge_between_two_vertices() {
    let config = system(2, &[&[0], &[1]]);
    assert_eq!(genus_histogram(&config, 3).unwrap(), vec![1, 0, 0]);
}

#[test]
fn duplicated_arrow_is_rejected() {
    let config = system(4, &[&[0, 1], &[1, 2, 3]]);
    assert_eq!(genus_histogram(&config, 3), Err(GenusError::Config(ConfigError::DuplicateArrow(1))));
}

#[test]
fn missing_arrow_is_rejected() {
    let config = system(4, &[&[0, 1], &[2]]);
    assert_eq!(genus_histogram(&config, 3), Err(GenusError::Config(ConfigError::MissingArrow(3))));
}

#[test]
fn arrow_out_of_range_is_rejected() {
    let config = system(4, &[&[0, 5], &[1, 2, 3]]);
    assert_eq!(genus_histogram(&config, 3), Err(GenusError::Config(ConfigError::ArrowOutOfRange(5))));
}

#[test]
fn odd_or_zero_arrow_count_is_rejected() {
    let odd = system(3, &[&[0, 1, 2]]);
    assert_eq!(genus_histogram(&odd, 3), Err(GenusError::Config(ConfigError::OddArrowCount)));
    let zero = system(0, &[]);
    assert_eq!(genus_histogram(&zero, 3), Err(GenusError::Config(ConfigError::OddArrowCount)));
}

#[test]
fn empty_vertex_is_rejected() {
    let config = system(4, &[&[0, 1, 2, 3], &[]]);
    assert_eq!(genus_histogram(&config, 3), Err(GenusError::Config(ConfigError::EmptyVertex(1))));
}

#[test]
fn histogram_too_small_is_an_error() {
    let config = system(4, &[&[0, 1, 2, 3]]);
    assert_eq!(genus_histogram(&config, 1), Err(GenusError::GenusOutOfRange(1)));
}

#[test]
fn one_vertex_of_four_arrows() {
    let config = system(4, &[&[0, 1, 2, 3]]);
    assert_eq!(genus_histogram(&config, 3).unwrap(), vec![2, 1, 0]);
}

#[test]
fn one_vertex_of_six_arrows_reaches_the_double_factorial() {
    let config = system(6, &[&[0, 1, 2, 3, 4, 5]]);
    let h = genus_histogram(&config, 3).unwrap();
    assert_eq!(h, vec![5, 10, 0]);
    assert_eq!(h.iter().sum::<usize>(), 15);
}

#[test]
fn two_vertices_of_three_arrows() {
    let config = system(6, &[&[0, 1, 2], &[3, 4, 5]]);
    assert_eq!(genus_histogram(&config, 3).unwrap(), vec![12, 3, 0]);
}

#[test]
fn disconnected_pairings_are_not_counted() {
    let config = system(4, &[&[0, 1], &[2, 3]]);
    let h = genus_histogram(&config, 3).unwrap();
    assert_eq!(h, vec![2, 0, 0]);
    assert!(h.iter().sum::<usize>() < 3);
    let isolated = system(4, &[&[0], &[1], &[2], &[3]]);
    assert_eq!(genus_histogram(&isolated, 3).unwrap(), vec![0, 0, 0]);
}

#[test]
fn face_count_of_identity_and_full_cycle() {
    assert_eq!(face_count(&perm(&[0, 1, 2, 3, 4])), 5);
    assert_eq!(face_count(&perm(&[1, 2, 3, 4, 0])), 1);
    assert_eq!(face_count(&perm(&[3, 0, 4, 1, 2])), 2);
    assert_eq!(face_count(&perm(&[1, 0, 3, 2, 4])), 3);
    assert_eq!(face_count(&perm(&[])), 0);
}

#[test]
fn product_applies_edge_map_first() {
    let h = product_permute(&perm(&[1, 0, 3, 2]), &perm(&[2, 3, 0, 1]));
    assert_eq!(h.out, vec![3, 2, 1, 0]);
    let h = product_permute(&perm(&[1, 0, 3, 2]), &perm(&[1, 2, 3, 0]));
    assert_eq!(h.out, vec![2, 1, 0, 3]);
}

#[test]
fn vertex_map_follows_each_vertex() {
    let config = system(6, &[&[0, 2, 1], &[5, 4, 3]]);
    let vm = convert_vertex_map(&config).ok().unwrap();
    assert_eq!(vm.out, vec![2, 0, 1, 5, 3, 4]);
}

#[test]
fn connectivity_follows_the_edges() {
    let config = system(4, &[&[0, 1], &[2, 3]]);
    assert!(!check_connected(&perm(&[1, 0, 3, 2]), &config));
    assert!(check_connected(&perm(&[2, 3, 0, 1]), &config));
    assert!(check_connected(&perm(&[3, 2, 1, 0]), &config));
    let three = system(6, &[&[0, 1], &[2, 3], &[4, 5]]);
    assert!(check_connected(&perm(&[2, 4, 0, 5, 1, 3]), &three));
    assert!(!check_connected(&perm(&[2, 3, 0, 1, 5, 4]), &three));
}

#[test]
fn membership_in_a_sequence() {
    assert!(is_in_array(3, &[1, 3, 5]));
    assert!(!is_in_array(4, &[1, 3, 5]));
    assert!(!is_in_array(0, &[]));
}

#[test]
fn count_records_one_embedding() {
    let config = system(4, &[&[0, 1, 2, 3]]);
    let vm = convert_vertex_map(&config).ok().unwrap();
    let mut genus = vec![0, 0, 0];
    assert_eq!(count(&mut genus, &perm(&[2, 3, 0, 1]), &vm, &config), Ok(()));
    assert_eq!(genus, vec![0, 1, 0]);
    assert_eq!(count(&mut genus, &perm(&[1, 0, 3, 2]), &vm, &config), Ok(()));
    assert_eq!(genus, vec![1, 1, 0]);
    let apart = system(4, &[&[0, 1], &[2, 3]]);
    let vm2 = convert_vertex_map(&apart).ok().unwrap();
    assert_eq!(count(&mut genus, &perm(&[1, 0, 3, 2]), &vm2, &apart), Ok(()));
    assert_eq!(genus, vec![1, 1, 0]);
}

#[test]
fn generated_pairing_is_an_involution_without_fixed_points() {
    let mut edge_map = perm(&[0, 1, 2, 3, 4, 5]);
    let rest = nest2(2, &vec![0, 1, 2, 3, 4, 5], &mut edge_map);
    assert_eq!(rest, vec![1, 3, 4, 5]);
    let rest = nest2(3, &rest, &mut edge_map);
    assert_eq!(rest, vec![3, 4]);
    let rest = nest2(1, &rest, &mut edge_map);
    assert!(rest.is_empty());
    assert_eq!(edge_map.out, vec![2, 5, 0, 4, 3, 1]);
    for a in 0..6 {
        assert_ne!(edge_map.out[a], a);
        assert_eq!(edge_map.out[edge_map.out[a]], a);
    }
}

#[test]
fn nest_leaves_the_edge_map_as_it_was() {
    let config = system(6, &[&[0, 1, 2], &[3, 4, 5]]);
    let vm = convert_vertex_map(&config).ok().unwrap();
    // arrows 0 and 3 already paired; the other four are paired in three ways
    let mut edge_map = perm(&[3, 1, 2, 0, 4, 5]);
    let mut genus = vec![0, 0, 0];
    assert_eq!(nest(&vec![1, 2, 4, 5], &mut edge_map, &vm, &config, &mut genus), Ok(()));
    assert_eq!(edge_map.out, vec![3, 1, 2, 0, 4, 5]);
    assert_eq!(genus.iter().sum::<usize>(), 3);
}

#[test]
fn euler_characteristic_is_even_on_every_connected_embedding() {
    for config in [
        system(8, &[&[0, 1, 2, 3], &[4, 5, 6, 7]]),
        system(6, &[&[0, 1, 2, 3, 4, 5]]),
        system(6, &[&[0], &[1, 2], &[3, 4, 5]]),
    ] {
        assert!(genus_histogram(&config, 8).is_ok());
    }
}

fn all_matchings(arrows: &[usize]) -> Vec<Vec<(usize, usize)>> {
    if arrows.is_empty() {
        return vec![vec![]];
    }
    let mut found = Vec::new();
    for j in 1..arrows.len() {
        let mut rest: Vec<usize> = arrows[1..j].to_vec();
        rest.extend_from_slice(&arrows[j + 1..]);
        for mut m in all_matchings(&rest) {
            m.push((arrows[0], arrows[j]));
            found.push(m);
        }
    }
    found
}

fn union_find_connected(vertices: &[&[usize]], pairs: &[(usize, usize)]) -> bool {
    let owner = |a: usize| vertices.iter().position(|v| v.contains(&a)).unwrap();
    let mut parent: Vec<usize> = (0..vertices.len()).collect();
    fn root(parent: &Vec<usize>, mut x: usize) -> usize {
        while parent[x] != x {
            x = parent[x];
        }
        x
    }
    for &(a, b) in pairs {
        let ra = root(&parent, owner(a));
        let rb = root(&parent, owner(b));
        parent[ra] = rb;
    }
    let r0 = root(&parent, 0);
    (0..vertices.len()).all(|v| root(&parent, v) == r0)
}

fn edge_map_of(n: usize, pairs: &[(usize, usize)]) -> PermutationStructure {
    let mut out = vec![0; n];
    for &(a, b) in pairs {
        out[a] = b;
        out[b] = a;
    }
    PermutationStructure { out }
}

#[test]
fn connectivity_agrees_with_union_find() {
    let layouts: [&[&[usize]]; 3] =
        [&[&[0, 1], &[2, 3], &[4, 5]], &[&[0], &[1, 2, 3], &[4, 5]], &[&[0, 1, 2, 3], &[4], &[5]]];
    for vertices in layouts {
        let config = system(6, vertices);
        for pairs in all_matchings(&[0, 1, 2, 3, 4, 5]) {
            let e = edge_map_of(6, &pairs);
            assert_eq!(check_connected(&e, &config), union_find_connected(vertices, &pairs));
        }
    }
}

#[test]
fn two_vertices_of_four_arrows_match_brute_force() {
    let vertices: &[&[usize]] = &[&[0, 1, 2, 3], &[4, 5, 6, 7]];
    let next = |a: usize| {
        let v = vertices.iter().find(|v| v.contains(&a)).unwrap();
        let k = v.iter().position(|&x| x == a).unwrap();
        v[(k + 1) % v.len()]
    };
    let matchings = all_matchings(&[0, 1, 2, 3, 4, 5, 6, 7]);
    assert_eq!(matchings.len(), 105);
    let mut expected = vec![0usize; 6];
    for pairs in &matchings {
        if !union_find_connected(vertices, pairs) {
            continue;
        }
        let e = edge_map_of(8, pairs);
        let mut seen = [false; 8];
        let mut faces = 0i64;
        for a in 0..8 {
            if !seen[a] {
                faces += 1;
                let mut x = a;
                while !seen[x] {
                    seen[x] = true;
                    x = next(e.out[x]);
                }
            }
        }
        let chi = 2 - 4 + faces;
        assert_eq!((2 - chi) % 2, 0);
        expected[((2 - chi) / 2) as usize] += 1;
    }
    let config = system(8, vertices);
    assert_eq!(genus_histogram(&config, 6).unwrap(), expected);
}
