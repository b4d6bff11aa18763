use persevere::cons::List;

fn values(list: &List<u32>) -> Vec<u32> {
    let mut out = Vec::new();
    let mut it = list.iter();
    while let Some(x) = it.next() {
        out.push(*x);
    }
    out
}

#[derive(Clone)]
enum Expr {
    Value(i32),
    Add,
    Sub,
    Mul,
    Div,
}

fn help(expr: List<Expr>) -> Option<(i32, List<Expr>)> {
    match expr.head_tail() {
        Some((&Expr::Value(v), tail)) => Some((v, tail)),
        Some((expr, tail)) => {
            if let Some((x, t1)) = help(tail) {
                if let Some((y, t2)) = help(t1) {
                    let v = match expr {
                        &Expr::Add => x + y,
                        &Expr::Sub => x - y,
                        &Expr::Mul => x * y,
                        &Expr::Div => x / y,
                        &Expr::Value(_) => unreachable!(),
                    };
                    Some((v, t2))
                } else {
                    None
                }
            } else {
                None
            }
        }
        None => None,
    }
}

fn eval(expr: List<Expr>) -> Option<i32> {
    help(expr).map(|p| p.0)
}

#[test]
fn list_head() {
    let list = List::new().cons(3).cons(2).cons(1);
    assert_eq!(*(list.head().unwrap()), 1);
}

#[test]
fn nil_head() {
    let list: List<u32> = List::new();
    assert!(list.head().is_none());
}

#[test]
fn list_tail() {
    let list = List::new().cons(3).cons(2).cons(1);
    let tail: Vec<u32> = values(&list.tail().unwrap());
    assert_eq!(tail, vec![2, 3]);
}

#[test]
fn nil_tail() {
    let list: List<u32> = List::new();
    assert!(list.tail().is_none());
}

#[test]
fn stack_evaluator() {
    let operands = List::new().cons(Expr::Value(-22)).cons(Expr::Value(5));
    let add = operands.cons(Expr::Add);
    let mul = operands.cons(Expr::Mul);
    let sub = operands.cons(Expr::Sub);
    let div = operands.cons(Expr::Div);
    assert_eq!(eval(add).unwrap(), -17);
    assert_eq!(eval(mul).unwrap(), -110);
    assert_eq!(eval(sub).unwrap(), 27);
    assert_eq!(eval(div).unwrap(), 0);
}

#[test]
fn from_slice_and_reverse() {
    let list = List::from_slice(&[1u32, 2, 3, 4]);
    assert_eq!(values(&list), vec![1, 2, 3, 4]);
    assert_eq!(values(&list.reverse()), vec![4, 3, 2, 1]);
    assert_eq!(values(&list), vec![1, 2, 3, 4]);
    let empty: List<u32> = List::from_slice(&[]);
    assert!(values(&empty.reverse()).is_empty());
}

#[test]
fn head_tail_splits() {
    let list = List::from_slice(&[7u32, 8]);
    let (h, rest) = list.head_tail().unwrap();
    assert_eq!(*h, 7);
    assert_eq!(values(&rest), vec![8]);
    let longer = rest.cons(6);
    assert_eq!(values(&longer), vec![6, 8]);
    assert_eq!(values(&list), vec![7, 8]);
    let nil: List<u32> = List::new();
    assert!(nil.head_tail().is_none());
}
