use long_arithmetic::piniatas::piniatas_solve;

fn num_candies(piniatas: &[u32], i: usize) -> u32 {
    piniatas.get(i.overflowing_add(!0).0).unwrap_or(&1)
        * piniatas.get(i).unwrap()
        * piniatas.get(i + 1).unwrap_or(&1)
}

fn calculate(mut piniatas: Vec<u32>, sequence: &[usize]) -> u32 {
    let mut candies = 0;

    for i in sequence {
        candies += num_candies(&piniatas, *i);
        piniatas[*i] = 0;
    }

    candies
}

fn permutations(n: usize) -> Vec<Vec<usize>> {
    if n == 0 {
        return vec![vec![]];
    }
    let mut out = Vec::new();
    for p in permutations(n - 1) {
        for pos in 0..=p.len() {
            let mut q = p.clone();
            q.insert(pos, n - 1);
            out.push(q);
        }
    }
    out
}

fn dumm_solver(piniatas: Vec<u32>) -> (u32, Vec<usize>) {
    let seq_len = piniatas.len();

    permutations(seq_len)
        .into_iter()
        .map(|seq| (calculate(piniatas.clone(), &seq), seq))
        .max()
        .unwrap()
}

#[test]
fn test_solution() {
    let test = vec![97, 40, 28, 60, 45];
    assert_eq!(piniatas_solve(&test), dumm_solver(test).0);

    let test = vec![21, 18, 69, 61, 54, 63];
    assert_eq!(piniatas_solve(&test), dumm_solver(test).0);

    let test = vec![24, 3, 23, 54, 69, 5, 50, 8, 11];
    assert_eq!(piniatas_solve(&test), dumm_solver(test).0);

    let test = vec![9, 57, 77, 69];
    assert_eq!(piniatas_solve(&test), dumm_solver(test).0);

    let test = vec![72, 36, 8];
    assert_eq!(piniatas_solve(&test), dumm_solver(test).0);

    let test = vec![27, 18, 75];
    assert_eq!(piniatas_solve(&test), dumm_solver(test).0);

    let test = vec![0, 85, 82, 95];
    assert_eq!(piniatas_solve(&test), dumm_solver(test).0);

    let test = vec![7, 13, 19, 19, 7, 9, 1];
    assert_eq!(piniatas_solve(&test), dumm_solver(test).0);
}

#[test]
fn piniatas_short_rows() {
    assert_eq!(piniatas_solve(&[]), 0);
    assert_eq!(piniatas_solve(&[5]), 0);
    assert_eq!(piniatas_solve(&[2, 3]), 6);
}
