use commit_graph::memory::InMemoryCommitGraphStorage;
use commit_graph::traversal::CommitGraph;
use commit_graph::types::{ChangesetId, CommitGraphError, Generation};

fn id(n: usize) -> ChangesetId {
    let mut bytes = [0u8; 32];
    bytes[30] = (n / 256) as u8;
    bytes[31] = (n % 256) as u8;
    ChangesetId::from_bytes(bytes)
}

fn number(id: &ChangesetId) -> usize {
    id.bytes[30] as usize * 256 + id.bytes[31] as usize
}

struct Dice(u64);

impl Dice {
    fn roll(&mut self, sides: usize) -> usize {
        self.0 = self.0.wrapping_mul(6364136223846793005).wrapping_add(1442695040888963407);
        ((self.0 >> 33) as usize) % sides
    }
}

struct Model {
    parents: Vec<Vec<usize>>,
    generation: Vec<u64>,
    ancestors: Vec<Vec<bool>>,
}

impl Model {
    fn len(&self) -> usize {
        self.parents.len()
    }

    fn is_ancestor(&self, a: usize, d: usize) -> bool {
        self.ancestors[d][a]
    }

    fn ancestors_of_any(&self, heads: &[usize]) -> Vec<usize> {
        (0..self.len()).filter(|x| heads.iter().any(|h| self.is_ancestor(*x, *h))).collect()
    }
}

fn random_graph(seed: u64, size: usize) -> (CommitGraph<InMemoryCommitGraphStorage>, Model) {
    let mut dice = Dice(seed);
    let mut graph = CommitGraph::new(InMemoryCommitGraphStorage::new());
    let mut model = Model { parents: vec![], generation: vec![], ancestors: vec![] };
    for n in 0..size {
        let mut parents: Vec<usize> = Vec::new();
        if n > 0 {
            let shape = dice.roll(10);
            let count = if shape == 0 {
                0
            } else if shape < 7 {
                1
            } else if shape < 9 {
                2
            } else {
                3
            };
            for k in 0..count {
                let p = if k == 0 && dice.roll(3) > 0 { n - 1 } else { dice.roll(n) };
                if !parents.contains(&p) {
                    parents.push(p);
                }
            }
        }
        let mut ancestors = vec![false; size];
        ancestors[n] = true;
        for p in &parents {
            for x in 0..size {
                if model.ancestors[*p][x] {
                    ancestors[x] = true;
                }
            }
        }
        let generation = 1 + parents.iter().map(|p| model.generation[*p]).max().unwrap_or(0);
        assert_eq!(graph.add(id(n), parents.iter().map(|p| id(*p)).collect()), Ok(true));
        model.parents.push(parents);
        model.generation.push(generation);
        model.ancestors.push(ancestors);
    }
    (graph, model)
}

fn numbers(ids: &[ChangesetId]) -> Vec<usize> {
    ids.iter().map(number).collect()
}

fn sorted(mut v: Vec<usize>) -> Vec<usize> {
    v.sort();
    v
}

#[test]
fn generations_and_parents_agree_with_the_model() {
    for seed in 1..6 {
        let (graph, model) = random_graph(seed, 40);
        for n in 0..model.len() {
            assert_eq!(
                graph.changeset_generation(id(n)),
                Ok(Some(Generation::new(model.generation[n])))
            );
            let parents = graph.changeset_parents_required(id(n)).unwrap();
            assert_eq!(numbers(&parents), model.parents[n]);
            for p in &model.parents[n] {
                assert_eq!(graph.is_ancestor(id(*p), id(n)), Ok(true));
            }
            let mut children = numbers(&graph.changeset_children(id(n)).unwrap());
            children.sort();
            let expected: Vec<usize> =
                (0..model.len()).filter(|c| model.parents[*c].contains(&n)).collect();
            assert_eq!(children, expected);
        }
    }
}

#[test]
fn ancestry_agrees_with_the_model() {
    for seed in 1..6 {
        let (graph, model) = random_graph(seed, 45);
        for a in 0..model.len() {
            for d in 0..model.len() {
                assert_eq!(graph.is_ancestor(id(a), id(d)), Ok(model.is_ancestor(a, d)));
            }
        }
    }
}

#[test]
fn common_bases_agree_with_the_model() {
    for seed in 1..6 {
        let (graph, model) = random_graph(seed, 36);
        for u in 0..model.len() {
            for v in 0..model.len() {
                let common: Vec<usize> = (0..model.len())
                    .filter(|x| model.is_ancestor(*x, u) && model.is_ancestor(*x, v))
                    .collect();
                let top = common.iter().map(|x| model.generation[*x]).max();
                let expected: Vec<usize> = common
                    .iter()
                    .copied()
                    .filter(|x| Some(model.generation[*x]) == top)
                    .collect();
                let bases = graph.common_base(id(u), id(v)).unwrap();
                assert_eq!(numbers(&bases), expected);
                assert_eq!(graph.common_base(id(v), id(u)), Ok(bases));
            }
        }
    }
}

#[test]
fn differences_agree_with_the_model() {
    for seed in 1..9 {
        let (graph, model) = random_graph(seed, 40);
        let mut dice = Dice(seed + 100);
        for _ in 0..20 {
            let heads: Vec<usize> = (0..1 + dice.roll(3)).map(|_| dice.roll(40)).collect();
            let common: Vec<usize> = (0..dice.roll(3)).map(|_| dice.roll(40)).collect();
            let out = graph
                .ancestors_difference(
                    heads.iter().map(|h| id(*h)).collect(),
                    common.iter().map(|c| id(*c)).collect(),
                )
                .unwrap();
            let out = numbers(&out);
            let excluded = model.ancestors_of_any(&common);
            let expected: Vec<usize> = model
                .ancestors_of_any(&heads)
                .into_iter()
                .filter(|x| !excluded.contains(x))
                .collect();
            assert_eq!(sorted(out.clone()), expected);
            for pair in out.windows(2) {
                assert!(model.generation[pair[0]] >= model.generation[pair[1]]);
            }
            for (i, x) in out.iter().enumerate() {
                for y in &out[i + 1..] {
                    assert!(!model.is_ancestor(*x, *y));
                }
            }
        }
    }
}

#[test]
fn ranges_agree_with_the_model() {
    for seed in 1..5 {
        let (graph, model) = random_graph(seed, 30);
        for start in 0..model.len() {
            for end in 0..model.len() {
                let out = numbers(&graph.range_stream(id(start), id(end)).unwrap());
                let expected: Vec<usize> = (0..model.len())
                    .filter(|x| model.is_ancestor(start, *x) && model.is_ancestor(*x, end))
                    .collect();
                assert_eq!(sorted(out.clone()), expected);
                for pair in out.windows(2) {
                    assert!(model.generation[pair[0]] <= model.generation[pair[1]]);
                }
                if start == end {
                    assert_eq!(out, vec![start]);
                }
                if !model.is_ancestor(start, end) {
                    assert!(out.is_empty());
                }
            }
        }
    }
}

fn keep_all(asked: Vec<ChangesetId>) -> Result<Vec<ChangesetId>, CommitGraphError> {
    Ok(asked)
}

#[test]
fn slices_cover_the_ancestors_of_the_model() {
    for seed in 1..9 {
        let (graph, model) = random_graph(seed, 40);
        let mut dice = Dice(seed + 200);
        for _ in 0..10 {
            let heads: Vec<usize> = (0..1 + dice.roll(3)).map(|_| dice.roll(40)).collect();
            let size = 1 + dice.roll(5) as u64;
            let slices = graph
                .slice_ancestors(heads.iter().map(|h| id(*h)).collect(), keep_all, size)
                .unwrap();
            let top = heads.iter().map(|h| model.generation[*h]).max().unwrap();
            let starts: Vec<u64> = slices.iter().map(|s| s.0).collect();
            let expected: Vec<u64> = (0..).map(|k| 1 + k * size).take_while(|s| *s <= top).collect();
            assert_eq!(starts, expected);
            let reachable = model.ancestors_of_any(&heads);
            let mut seen: Vec<usize> = Vec::new();
            for (start, band) in &slices {
                for c in numbers(band) {
                    assert!(!seen.contains(&c));
                    seen.push(c);
                    assert!(reachable.contains(&c));
                    assert!(*start <= model.generation[c] && model.generation[c] < start + size);
                }
            }
            for x in reachable {
                let band = slices
                    .iter()
                    .find(|s| s.0 <= model.generation[x] && model.generation[x] < s.0 + size)
                    .unwrap();
                assert!(numbers(&band.1).iter().any(|c| model.is_ancestor(x, *c)));
            }
        }
    }
}

#[test]
fn frontier_of_a_generation_bound_agrees_with_the_model() {
    for seed in 1..9 {
        let (graph, model) = random_graph(seed, 40);
        let mut dice = Dice(seed + 300);
        for _ in 0..10 {
            let mut heads: Vec<usize> = Vec::new();
            for _ in 0..1 + dice.roll(3) {
                let h = dice.roll(40);
                if !heads.contains(&h) {
                    heads.push(h);
                }
            }
            let bound = 1 + dice.roll(8) as u64;
            let generation = model.generation.clone();
            let low = move |c: ChangesetId| -> Result<bool, CommitGraphError> {
                Ok(generation[number(&c)] <= bound)
            };
            let found = graph
                .ancestors_frontier_with(heads.iter().map(|h| id(*h)).collect(), low)
                .unwrap();
            let reachable = model.ancestors_of_any(&heads);
            let expected: Vec<usize> = reachable
                .iter()
                .copied()
                .filter(|x| model.generation[*x] <= bound)
                .filter(|x| {
                    heads.contains(x)
                        || reachable.iter().any(|y| {
                            model.generation[*y] > bound && model.parents[*y].contains(x)
                        })
                })
                .collect();
            assert_eq!(sorted(numbers(&found)), expected);
        }
    }
}
