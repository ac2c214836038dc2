use alpha_zero::graph::{ConvDetails, MuZeroNetworkInfo, Value};
use alpha_zero::shape::{ConcreteShape, Shape, Size};

#[test]
fn size_building() {
    assert_eq!(Size::new(3, 0), Size::zero());
    assert_eq!(Size::new(0, 1), Size::one());
    assert_eq!(Size::new(1, 1), Size::batch());
    assert_eq!(Size::fixed(5), Size::new(0, 5));
    assert_ne!(Size::new(1, 5), Size::new(0, 5));
}

#[test]
fn size_eval() {
    assert_eq!(Size::fixed(7).eval(100), 7);
    assert_eq!(Size::batch().eval(32), 32);
    assert_eq!(Size::new(2, 3).eval(5), 75);
    assert_eq!(Size::new(3, 2).eval(0), 0);
    assert_eq!(Size::zero().eval(9), 0);
    assert_eq!(Size::new(1, 4).eval(1), 4);
}

#[test]
fn size_unwrap_fixed() {
    assert_eq!(Size::fixed(7).try_unwrap_fixed(), Some(7));
    assert_eq!(Size::batch().try_unwrap_fixed(), None);
    assert_eq!(Size::zero().try_unwrap_fixed(), Some(0));
    assert_eq!(Size::fixed(9).unwrap_fixed("the channels"), 9);
    let mut size = Size::fixed(9);
    *size.unwrap_fixed_mut("the channels") = 4;
    assert_eq!(size, Size::fixed(4));
}

#[test]
fn size_arithmetic() {
    assert_eq!(Size::zero().add(Size::batch()), Some(Size::batch()));
    assert_eq!(Size::batch().add(Size::zero()), Some(Size::batch()));
    assert_eq!(Size::fixed(2).add(Size::fixed(3)), Some(Size::fixed(5)));
    assert_eq!(Size::new(1, 2).add(Size::new(1, 3)), Some(Size::new(1, 5)));
    assert_eq!(Size::new(1, 2).add(Size::fixed(3)), None);

    assert_eq!(Size::new(1, 2).mul(Size::new(2, 3)), Size::new(3, 6));
    assert_eq!(Size::new(1, 2).mul(Size::zero()), Size::zero());
    assert_eq!(Size::one().mul(Size::batch()), Size::batch());

    assert_eq!(Size::new(3, 6).div(Size::new(1, 2)), Some(Size::new(2, 3)));
    assert_eq!(Size::new(1, 6).div(Size::new(2, 2)), None);
    assert_eq!(Size::new(1, 5).div(Size::new(1, 2)), None);
    assert_eq!(Size::zero().div(Size::batch()), None);
    assert_eq!(Size::zero().div(Size::fixed(3)), Some(Size::zero()));

    assert_eq!(Size::sum(&[]), Some(Size::zero()));
    assert_eq!(Size::sum(&[Size::fixed(1), Size::fixed(2), Size::zero()]), Some(Size::fixed(3)));
    assert_eq!(Size::sum(&[Size::batch(), Size::new(1, 4)]), Some(Size::new(1, 5)));
    assert_eq!(Size::sum(&[Size::batch(), Size::fixed(4), Size::batch()]), None);
}

#[test]
fn shape_building() {
    assert_eq!(Shape::scalar().rank(), 0);
    assert_eq!(Shape::single(Size::batch()).dims, vec![Size::batch()]);
    assert_eq!(Shape::fixed(&[2, 3]).dims, vec![Size::fixed(2), Size::fixed(3)]);
    assert_eq!(Shape::ones(3).dims, vec![Size::one(); 3]);
    assert_eq!(Shape::zeros(2).dims, vec![Size::zero(); 2]);
    assert_eq!(Shape::new(vec![Size::batch(), Size::fixed(4)]).rank(), 2);
    assert_eq!(Shape::fixed(&[4, 5]).batched().dims, vec![Size::batch(), Size::fixed(4), Size::fixed(5)]);
}

#[test]
fn shape_fixed_and_eval() {
    let fixed = Shape::fixed(&[2, 3, 4]);
    assert_eq!(fixed.as_fixed(), Some(ConcreteShape::new(vec![2, 3, 4])));
    assert_eq!(fixed.unwrap_fixed("the filter"), ConcreteShape::new(vec![2, 3, 4]));
    let batched = fixed.batched();
    assert_eq!(batched.as_fixed(), None);
    assert_eq!(batched.eval(8), ConcreteShape::new(vec![8, 2, 3, 4]));
    assert_eq!(batched.size(), Size::new(1, 24));
    assert_eq!(Shape::scalar().size(), Size::one());
    assert_eq!(Shape::fixed(&[3, 0, 2]).size(), Size::zero());
    assert_eq!(Shape::new(vec![Size::batch(), Size::batch()]).size(), Size::new(2, 1));
}

#[test]
fn shape_unwrap() {
    let s = |n: usize| Size::fixed(n);
    assert_eq!(Shape::fixed(&[7]).unwrap_1(), s(7));
    assert_eq!(Shape::fixed(&[7, 8]).unwrap_2(), [s(7), s(8)]);
    assert_eq!(Shape::fixed(&[7, 8, 9]).unwrap_3(), [s(7), s(8), s(9)]);
    assert_eq!(Shape::fixed(&[7, 8, 9, 1]).unwrap_4(), [s(7), s(8), s(9), s(1)]);
    assert_eq!(ConcreteShape::new(vec![7, 8]).unwrap_2(), [7, 8]);
    assert_eq!(ConcreteShape::new(vec![7, 8, 9]).unwrap_3(), [7, 8, 9]);
    assert_eq!(ConcreteShape::new(vec![7, 8, 9, 1]).unwrap_4(), [7, 8, 9, 1]);
}

#[test]
fn shape_editing() {
    let shape = Shape::fixed(&[2, 3, 4]);
    assert_eq!(shape.clone().concat(&Shape::fixed(&[5])), Shape::fixed(&[2, 3, 4, 5]));
    assert_eq!(shape.replace(1, Shape::fixed(&[7, 8])), Shape::fixed(&[2, 7, 8, 4]));
    assert_eq!(shape.replace(0, Shape::scalar()), Shape::fixed(&[3, 4]));
    assert_eq!(shape.replace_all(&[2, 0], Shape::fixed(&[9])), Shape::fixed(&[9, 3, 9]));
    assert_eq!(shape.replace_all(&[], Shape::fixed(&[9])), shape);
    assert_eq!(shape.keep(1, Size::one()), Shape::fixed(&[1, 3, 1]));
    assert_eq!(Shape::fixed(&[2, 1, 4]).repeat_unary(1, Size::batch()).dims, vec![
        Size::fixed(2),
        Size::batch(),
        Size::fixed(4)
    ]);
    assert_eq!(shape.insert(0, Size::fixed(9)), Shape::fixed(&[9, 2, 3, 4]));
    assert_eq!(shape.insert(3, Size::fixed(9)), Shape::fixed(&[2, 3, 4, 9]));
    assert_eq!(shape.split(1), (Shape::fixed(&[2]), Shape::fixed(&[3, 4])));
    assert_eq!(shape.split(0), (Shape::scalar(), shape.clone()));
    assert_eq!(shape.split(3), (shape.clone(), Shape::scalar()));
}

#[test]
fn concrete_shape() {
    let shape = ConcreteShape::new(vec![2, 3, 4]);
    assert_eq!(shape.rank(), 3);
    assert_eq!(shape.size(), 24);
    assert_eq!(ConcreteShape::new(vec![]).size(), 1);
    assert_eq!(ConcreteShape::new(vec![5, 0, usize::MAX]).size(), 0);
}

#[test]
fn graph_shapes() {
    let details = ConvDetails {
        input_channels: 3,
        output_channels: 16,
        input_size: 8,
        kernel_size: 5,
        padding: 2,
        output_size: 8,
        batch_size: Size::batch(),
    };
    assert_eq!(details.kernel_shape(), [16, 3, 5, 5]);
    assert_eq!(Value(3), Value(3));

    let info = MuZeroNetworkInfo {
        game: "ttt".to_string(),
        state_channels: 32,
        state_channels_saved: 8,
        state_quant_bits: 8,
    };
    assert_eq!(info.state_shape(3).dims, vec![Size::batch(), Size::fixed(32), Size::fixed(3), Size::fixed(3)]);
    assert_eq!(info.state_saved_shape(3).eval(2), ConcreteShape::new(vec![2, 8, 3, 3]));
}

#[test]
fn shapes_as_text() {
    assert_eq!(Size::fixed(7).to_text(), "7");
    assert_eq!(Size::zero().to_text(), "0");
    assert_eq!(Size::batch().to_text(), "B");
    assert_eq!(Size::new(1, 4).to_text(), "4B");
    assert_eq!(Size::new(3, 1).to_text(), "B^3");
    assert_eq!(Size::new(12, 34).to_text(), "34B^12");
    assert_eq!(Shape::scalar().to_text(), "()");
    assert_eq!(Shape::fixed(&[3, 4]).batched().to_text(), "(B x 3 x 4)");
    assert_eq!(ConcreteShape::new(vec![]).to_text(), "()");
    assert_eq!(ConcreteShape::new(vec![8]).to_text(), "(8)");
    assert_eq!(ConcreteShape::new(vec![8, 0, 12]).to_text(), "(8 x 0 x 12)");
}
