use entoli::tree::Tree;

fn leaf<T>(value: T) -> Tree<T> {
    Tree {
        value,
        children: vec![],
    }
}

fn sample() -> Tree<i32> {
    Tree {
        value: 1,
        children: vec![
            Tree {
                value: 11,
                children: vec![leaf(111)],
            },
            Tree {
                value: 12,
                children: vec![leaf(121), leaf(122)],
            },
        ],
    }
}

#[test]
fn tree_test_unfold() {
    let f = |n: &u32| {
        if *n == 0 {
            (0, vec![])
        } else {
            (*n, vec![n - 1])
        }
    };
    let tree = Tree::unfold(&f, &3);

    assert_eq!(
        tree,
        Tree {
            value: 3,
            children: vec![Tree {
                value: 2,
                children: vec![Tree {
                    value: 1,
                    children: vec![Tree {
                        value: 0,
                        children: vec![]
                    }]
                }]
            }]
        }
    );
}

#[test]
fn unfold_branches_in_order() {
    let f = |n: &u32| {
        if *n <= 1 {
            (*n * 10, vec![])
        } else {
            (*n * 10, vec![n - 1, n - 2])
        }
    };
    let tree = Tree::unfold(&f, &3);
    assert_eq!(tree.flatten(), vec![30, 20, 10, 0, 10]);
}

#[test]
fn tree_test_zip() {
    let tree1 = Tree {
        value: 1,
        children: vec![
            Tree {
                value: 11,
                children: vec![Tree {
                    value: 111,
                    children: vec![],
                }],
            },
            Tree {
                value: 12,
                children: vec![
                    Tree {
                        value: 121,
                        children: vec![],
                    },
                    Tree {
                        value: 122,
                        children: vec![],
                    },
                ],
            },
        ],
    };

    let tree2 = Tree {
        value: 'a',
        children: vec![
            Tree {
                value: 'b',
                children: vec![Tree {
                    value: 'c',
                    children: vec![],
                }],
            },
            Tree {
                value: 'd',
                children: vec![
                    Tree {
                        value: 'e',
                        children: vec![],
                    },
                    Tree {
                        value: 'f',
                        children: vec![],
                    },
                ],
            },
        ],
    };

    let zipped = tree1.zip(tree2);

    assert_eq!(
        zipped,
        Tree {
            value: (1, 'a'),
            children: vec![
                Tree {
                    value: (11, 'b'),
                    children: vec![Tree {
                        value: (111, 'c'),
                        children: vec![]
                    }]
                },
                Tree {
                    value: (12, 'd'),
                    children: vec![
                        Tree {
                            value: (121, 'e'),
                            children: vec![]
                        },
                        Tree {
                            value: (122, 'f'),
                            children: vec![]
                        }
                    ]
                }
            ]
        }
    );
}

#[test]
fn zip_drops_unmatched_subtrees() {
    let small = Tree {
        value: 'x',
        children: vec![leaf('y')],
    };
    let zipped = sample().zip(small);
    assert_eq!(
        zipped,
        Tree {
            value: (1, 'x'),
            children: vec![Tree {
                value: (11, 'y'),
                children: vec![]
            }]
        }
    );
}

#[test]
fn tree_test_fmap() {
    let tree1 = Tree {
        value: 1,
        children: vec![
            Tree {
                value: 11,
                children: vec![Tree {
                    value: 111,
                    children: vec![],
                }],
            },
            Tree {
                value: 12,
                children: vec![
                    Tree {
                        value: 121,
                        children: vec![],
                    },
                    Tree {
                        value: 122,
                        children: vec![],
                    },
                ],
            },
        ],
    };

    let f = |n: &i32| n.to_string();

    let mapped = tree1.fmap(&f);

    assert_eq!(
        mapped,
        Tree {
            value: "1".to_string(),
            children: vec![
                Tree {
                    value: "11".to_string(),
                    children: vec![Tree {
                        value: "111".to_string(),
                        children: vec![]
                    }]
                },
                Tree {
                    value: "12".to_string(),
                    children: vec![
                        Tree {
                            value: "121".to_string(),
                            children: vec![]
                        },
                        Tree {
                            value: "122".to_string(),
                            children: vec![]
                        }
                    ]
                }
            ]
        }
    );
}

#[test]
fn fmap_ref_takes_values_over() {
    let mapped = sample().fmap_ref(&|n: i32| n * 2);
    assert_eq!(mapped.flatten(), vec![2, 22, 222, 24, 242, 244]);
}

#[test]
fn tree_test_into_iter_0() {
    let tree = Tree {
        value: 1,
        children: vec![],
    };

    let flattened = tree.flatten();

    assert_eq!(flattened, vec![1]);
}

#[test]
fn tree_test_flatten_1() {
    let tree = Tree {
        value: 1,
        children: vec![
            Tree {
                value: 11,
                children: vec![Tree {
                    value: 111,
                    children: vec![],
                }],
            },
            Tree {
                value: 12,
                children: vec![
                    Tree {
                        value: 121,
                        children: vec![],
                    },
                    Tree {
                        value: 122,
                        children: vec![],
                    },
                ],
            },
        ],
    };

    let flattened: Vec<i32> = tree.flatten();

    assert_eq!(flattened, vec![1, 11, 111, 12, 121, 122]);
}

#[test]
fn iter_visits_in_pre_order_without_consuming() {
    let tree = sample();
    let values: Vec<i32> = tree.iter().into_iter().copied().collect();
    assert_eq!(values, vec![1, 11, 111, 12, 121, 122]);
    assert_eq!(tree.value, 1);
}
